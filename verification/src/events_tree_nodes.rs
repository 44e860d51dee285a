//! Nodes of the event tree: the position-keyed B⁺-tree holding the event
//! log, with overflow chains for oversize payloads.

use crate::common::page_ids_to_u64s;
use crate::common::positions_to_u64s;
use crate::common::u64s_of_page_ids;
use crate::common::u64s_of_positions;
use crate::common::u64s_to_page_ids;
use crate::common::u64s_to_positions;
use crate::common::PageID;
use crate::common::Position;
use crate::errors::DbError;
use crate::errors::DbResult;
use crate::wire::enc_list;
use crate::wire::enc_str;
use crate::wire::enc_tags;
use crate::wire::enc_u16;
use crate::wire::enc_u64;
use crate::wire::enc_u64_seq;
use crate::wire::lemma_enc_list_push;
use crate::wire::lemma_enc_tags_len;
use crate::wire::lemma_enc_u64_seq_len;
use crate::wire::lemma_parse_list_enc;
use crate::wire::lemma_parse_list_enc_trunc;
use crate::wire::lemma_parse_list_snoc;
use crate::wire::lemma_parse_list_split;
use crate::wire::lemma_parse_str_enc;
use crate::wire::lemma_parse_str_trunc;
use crate::wire::lemma_parse_tags_enc;
use crate::wire::lemma_parse_tags_trunc;
use crate::wire::lemma_parse_u16_enc;
use crate::wire::lemma_parse_u64_enc;
use crate::wire::lemma_parse_u64_seq_enc;
use crate::wire::lemma_parse_u64_seq_short;
use crate::wire::lemma_parse_u64_seq_total;
use crate::wire::lemma_sum_list_nonneg;
use crate::wire::lemma_sum_list_split;
use crate::wire::overwrite_prefix;
use crate::wire::parse_bytes;
use crate::wire::parse_list;
use crate::wire::parse_str;
use crate::wire::parse_tags;
use crate::wire::parse_u16;
use crate::wire::parse_u64;
use crate::wire::parse_u64_seq;
use crate::wire::parse_u8;
use crate::wire::push_str;
use crate::wire::push_tags;
use crate::wire::push_u16;
use crate::wire::push_u64;
use crate::wire::push_u64_list;
use crate::wire::push_u8;
use crate::wire::read_bytes_at;
use crate::wire::read_str;
use crate::wire::read_tags;
use crate::wire::read_u16_at;
use crate::wire::read_u64_at;
use crate::wire::read_u64_list;
use crate::wire::read_u8_at;
use crate::wire::strs_view;
use crate::wire::sum_list;
use crate::wire::tags_size;
use crate::wire::tags_wf;
use vstd::bytes::spec_u64_from_le_bytes;
use vstd::prelude::*;
use vstd::std_specs::cmp::PartialEqSpec;
use vstd::utf8::encode_utf8;

verus! {

/// Chain link carrying part of an oversize event payload. `next` is
/// `PageID(0)` at the end of the chain; all bytes after it are payload.
#[derive(Debug, Clone, PartialEq, Eq)]
pub struct EventOverflowNode {
    pub next: PageID,
    pub data: Vec<u8>,
}

/// Mathematical image of an [`EventOverflowNode`].
pub ghost struct EventOverflowView {
    pub next: u64,
    pub data: Seq<u8>,
}

impl View for EventOverflowNode {
    type V = EventOverflowView;

    open spec fn view(&self) -> EventOverflowView {
        EventOverflowView { next: self.next.0, data: self.data@ }
    }
}

impl EventOverflowView {
    /// Byte image: `u64 next`, then the raw payload.
    pub open spec fn enc(self) -> Seq<u8> {
        enc_u64(self.next) + self.data
    }
}

/// Decode an overflow node: the first eight bytes are the successor page,
/// everything after them is payload.
pub open spec fn parse_event_overflow(b: Seq<u8>) -> Option<EventOverflowView> {
    if b.len() >= 8 {
        Some(EventOverflowView { next: spec_u64_from_le_bytes(b.take(8)), data: b.skip(8) })
    } else {
        None
    }
}

/// Round trip: decoding the byte image of any overflow node yields that node.
pub proof fn lemma_event_overflow_roundtrip(m: EventOverflowView)
    ensures
        parse_event_overflow(m.enc()) == Some(m),
{
    lemma_parse_u64_enc(m.next, m.data);
    assert(m.enc().take(8) =~= enc_u64(m.next));
    assert(m.enc().skip(8) =~= m.data);
}

/// Truncation behaviour of the overflow node, the one shape whose payload
/// is "all remaining bytes": cutting into the eight-byte successor field
/// makes decoding fail, while any cut beyond it still decodes, with the
/// payload shortened accordingly.
pub proof fn lemma_event_overflow_truncation(m: EventOverflowView, t: int)
    requires
        0 <= t < m.enc().len(),
    ensures
        t < 8 ==> parse_event_overflow(m.enc().take(t)) is None,
        t >= 8 ==> parse_event_overflow(m.enc().take(t)) == Some(
            EventOverflowView { next: m.next, data: m.data.take(t - 8) },
        ),
{
    lemma_parse_u64_enc(m.next, m.data);
    let b = m.enc().take(t);
    if t >= 8 {
        assert(b.take(8) =~= enc_u64(m.next));
        assert(b.skip(8) =~= m.data.take(t - 8));
    }
}

impl EventOverflowNode {
    /// Exact size of the byte image: eight bytes for `next` plus the payload.
    pub fn calc_serialized_size(&self) -> (r: usize)
        requires
            self@.data.len() + 8 <= usize::MAX,
        ensures
            r == self@.enc().len(),
    {
        proof {
            lemma_parse_u64_enc(self.next.0, self@.data);
        }
        8 + self.data.len()
    }

    /// Write the byte image into the front of `buf`; returns the number of
    /// bytes written, which equals `calc_serialized_size`.
    pub fn serialize_into(&self, buf: &mut Vec<u8>) -> (r: usize)
        requires
            self@.data.len() + 8 <= usize::MAX,
            self@.enc().len() <= old(buf)@.len(),
        ensures
            r == self@.enc().len(),
            final(buf)@ == self@.enc() + old(buf)@.skip(r as int),
            final(buf)@.len() == old(buf)@.len(),
    {
        let size = self.calc_serialized_size();
        let mut out: Vec<u8> = Vec::new();
        push_u64(&mut out, self.next.0);
        out.extend_from_slice(self.data.as_slice());
        proof {
            assert(out@ =~= self@.enc());
        }
        overwrite_prefix(buf, out.as_slice());
        size
    }

    /// Decode a buffer produced by `serialize_into`. Fails with a
    /// deserialization error exactly when the buffer is shorter than the
    /// eight-byte successor field.
    pub fn from_slice(slice: &[u8]) -> (r: DbResult<Self>)
        ensures
            match r {
                Ok(node) => parse_event_overflow(slice@) == Some(node@),
                Err(e) => parse_event_overflow(slice@) is None && e is DeserializationError,
            },
    {
        if slice.len() < 8 {
            return Err(DbError::DeserializationError("overflow node too small"));
        }
        let next = PageID(read_u64_at(slice, 0));
        let data = read_bytes_at(slice, 8, slice.len() - 8);
        proof {
            assert(slice@.subrange(0, 8) =~= slice@.take(8));
            assert(slice@.subrange(8, 8 + (slice@.len() - 8)) =~= slice@.skip(8));
        }
        Ok(EventOverflowNode { next, data })
    }
}

/// 128-bit event identifier carried as 16 raw bytes on disk.
#[derive(Debug, Clone, PartialEq, Eq)]
pub struct EventUuid {
    pub bytes: Vec<u8>,
}

impl View for EventUuid {
    type V = Seq<u8>;

    open spec fn view(&self) -> Seq<u8> {
        self.bytes@
    }
}

/// An event whose payload is stored inline in the leaf.
#[derive(Debug, Clone, PartialEq, Eq)]
pub struct EventRecord {
    pub event_type: String,
    pub data: Vec<u8>,
    pub tags: Vec<String>,
    pub uuid: Option<EventUuid>,
}

/// A value stored against one position in an event leaf.
#[derive(Debug, Clone, PartialEq, Eq)]
pub enum EventValue {
    /// The payload fits in the leaf.
    Inline(EventRecord),
    /// Only metadata lives in the leaf; the payload bytes live in a chain of
    /// overflow pages starting at `root_id`.
    Overflow {
        event_type: String,
        data_len: u64,
        tags: Vec<String>,
        root_id: PageID,
        uuid: Option<EventUuid>,
    },
}

/// Mathematical image of an [`EventRecord`].
pub ghost struct EventRecordView {
    pub event_type: Seq<char>,
    pub data: Seq<u8>,
    pub tags: Seq<Seq<char>>,
    pub uuid: Option<Seq<u8>>,
}

/// Mathematical image of an [`EventValue`].
pub ghost enum EventValueView {
    Inline(EventRecordView),
    Overflow {
        event_type: Seq<char>,
        data_len: u64,
        tags: Seq<Seq<char>>,
        root_id: u64,
        uuid: Option<Seq<u8>>,
    },
}

/// The raw bytes behind an optional event identifier.
pub open spec fn opt_uuid_view(u: Option<EventUuid>) -> Option<Seq<u8>> {
    match u {
        None => None,
        Some(x) => Some(x.bytes@),
    }
}

impl View for EventRecord {
    type V = EventRecordView;

    open spec fn view(&self) -> EventRecordView {
        EventRecordView {
            event_type: self.event_type@,
            data: self.data@,
            tags: strs_view(self.tags@),
            uuid: opt_uuid_view(self.uuid),
        }
    }
}

impl View for EventValue {
    type V = EventValueView;

    open spec fn view(&self) -> EventValueView {
        match self {
            EventValue::Inline(rec) => EventValueView::Inline(rec@),
            EventValue::Overflow { event_type, data_len, tags, root_id, uuid } => {
                EventValueView::Overflow {
                    event_type: event_type@,
                    data_len: *data_len,
                    tags: strs_view(tags@),
                    root_id: root_id.0,
                    uuid: opt_uuid_view(*uuid),
                }
            },
        }
    }
}

/// An optional identifier is well-formed when present with exactly 16 bytes.
pub open spec fn uuid_wf(u: Option<Seq<u8>>) -> bool {
    match u {
        None => true,
        Some(bs) => bs.len() == 16,
    }
}

/// Bytes an optional identifier adds to a value image.
pub open spec fn uuid_size(u: Option<Seq<u8>>) -> int {
    match u {
        None => 0,
        Some(_) => 16,
    }
}

/// Image of an optional identifier: its 16 raw bytes, or nothing.
pub open spec fn enc_uuid(u: Option<Seq<u8>>) -> Seq<u8> {
    match u {
        None => Seq::empty(),
        Some(bs) => bs,
    }
}

/// Read an optional identifier: 16 raw bytes when the value's flags say one
/// is present, nothing otherwise.
pub open spec fn parse_uuid(b: Seq<u8>, has: bool) -> Option<(Option<Seq<u8>>, Seq<u8>)> {
    if has {
        match parse_bytes(b, 16) {
            None => None,
            Some((bs, r)) => Some((Some(bs), r)),
        }
    } else {
        Some((None, b))
    }
}

/// Flag bit 0 set: the payload lives in an overflow chain.
pub open spec fn flag_overflow(flags: u8) -> bool {
    flags == 1 || flags == 3
}

/// Flag bit 1 set: a 16-byte identifier follows the value.
pub open spec fn flag_uuid(flags: u8) -> bool {
    flags == 2 || flags == 3
}

impl EventValueView {
    /// Shape every stored value satisfies: every length fits its prefix and
    /// an identifier, when present, is 16 bytes.
    pub open spec fn wf(self) -> bool {
        match self {
            EventValueView::Inline(rec) => {
                &&& encode_utf8(rec.event_type).len() <= 0xFFFF
                &&& rec.data.len() <= 0xFFFF
                &&& tags_wf(rec.tags)
                &&& uuid_wf(rec.uuid)
            },
            EventValueView::Overflow { event_type, tags, uuid, .. } => {
                &&& encode_utf8(event_type).len() <= 0xFFFF
                &&& tags_wf(tags)
                &&& uuid_wf(uuid)
            },
        }
    }

    /// The flags byte leading the value image.
    pub open spec fn flags(self) -> u8 {
        match self {
            EventValueView::Inline(rec) => if rec.uuid is Some {
                2
            } else {
                0
            },
            EventValueView::Overflow { uuid, .. } => if uuid is Some {
                3
            } else {
                1
            },
        }
    }

    /// Size of the value image.
    pub open spec fn size(self) -> int {
        match self {
            EventValueView::Inline(rec) => 1 + 2 + encode_utf8(rec.event_type).len() as int + 2
                + rec.data.len() as int + tags_size(rec.tags) + uuid_size(rec.uuid),
            EventValueView::Overflow { event_type, tags, uuid, .. } => 1 + 2 + encode_utf8(
                event_type,
            ).len() as int + 8 + tags_size(tags) + 8 + uuid_size(uuid),
        }
    }

    /// Byte image of the value: a flags byte, the event type, then either
    /// the inline payload or the overflow metadata, the tags, and the
    /// optional identifier.
    pub open spec fn enc(self) -> Seq<u8> {
        match self {
            EventValueView::Inline(rec) => seq![self.flags()] + enc_str(rec.event_type) + enc_u16(
                rec.data.len() as u16,
            ) + rec.data + enc_tags(rec.tags) + enc_uuid(rec.uuid),
            EventValueView::Overflow { event_type, data_len, tags, root_id, uuid } => seq![
                self.flags(),
            ] + enc_str(event_type) + enc_u64(data_len) + enc_tags(tags) + enc_u64(root_id)
                + enc_uuid(uuid),
        }
    }
}

/// Decode one event value from the front of `b`. Unknown flag bits fail.
pub open spec fn parse_event_value(b: Seq<u8>) -> Option<(EventValueView, Seq<u8>)> {
    match parse_u8(b) {
        None => None,
        Some((flags, r0)) => if flags > 3 {
            None
        } else {
            match parse_str(r0) {
                None => None,
                Some((event_type, r1)) => if !flag_overflow(flags) {
                    match parse_u16(r1) {
                        None => None,
                        Some((dlen, r2)) => match parse_bytes(r2, dlen as nat) {
                            None => None,
                            Some((data, r3)) => match parse_tags(r3) {
                                None => None,
                                Some((tags, r4)) => match parse_uuid(r4, flag_uuid(flags)) {
                                    None => None,
                                    Some((uuid, r5)) => Some(
                                        (
                                            EventValueView::Inline(
                                                EventRecordView { event_type, data, tags, uuid },
                                            ),
                                            r5,
                                        ),
                                    ),
                                },
                            },
                        },
                    }
                } else {
                    match parse_u64(r1) {
                        None => None,
                        Some((data_len, r2)) => match parse_tags(r2) {
                            None => None,
                            Some((tags, r3)) => match parse_u64(r3) {
                                None => None,
                                Some((root_id, r4)) => match parse_uuid(r4, flag_uuid(flags)) {
                                    None => None,
                                    Some((uuid, r5)) => Some(
                                        (
                                            EventValueView::Overflow {
                                                event_type,
                                                data_len,
                                                tags,
                                                root_id,
                                                uuid,
                                            },
                                            r5,
                                        ),
                                    ),
                                },
                            },
                        },
                    }
                },
            }
        },
    }
}

/// Encoder of one event value, as a first-class function.
pub open spec fn event_value_enc_fn() -> spec_fn(EventValueView) -> Seq<u8> {
    |v: EventValueView| v.enc()
}

/// Parser of one event value, as a first-class function.
pub open spec fn event_value_parse_fn() -> spec_fn(Seq<u8>) -> Option<(EventValueView, Seq<u8>)> {
    |b: Seq<u8>| parse_event_value(b)
}

/// Well-formedness of one event value, as a first-class function.
pub open spec fn event_value_wf_fn() -> spec_fn(EventValueView) -> bool {
    |v: EventValueView| v.wf()
}

/// Image size of one event value, as a first-class function.
pub open spec fn event_value_size_fn() -> spec_fn(EventValueView) -> int {
    |v: EventValueView| v.size()
}

/// One event value round-trips in front of any suffix, and its image is
/// exactly `size()` bytes.
pub proof fn lemma_parse_event_value_enc(v: EventValueView, rest: Seq<u8>)
    requires
        v.wf(),
    ensures
        v.enc().len() == v.size(),
        parse_event_value(v.enc() + rest) == Some((v, rest)),
{
    match v {
        EventValueView::Inline(rec) => lemma_parse_event_value_enc_inline(v, rest),
        EventValueView::Overflow { .. } => lemma_parse_event_value_enc_overflow(v, rest),
    }
}

/// Round trip of an inline value image.
#[verifier::spinoff_prover]
proof fn lemma_parse_event_value_enc_inline(v: EventValueView, rest: Seq<u8>)
    requires
        v.wf(),
        v is Inline,
    ensures
        v.enc().len() == v.size(),
        parse_event_value(v.enc() + rest) == Some((v, rest)),
{
    match v {
        EventValueView::Inline(rec) => {
            lemma_enc_tags_len(rec.tags);
            let f = v.flags();
            let r4 = enc_uuid(rec.uuid) + rest;
            let r3 = enc_tags(rec.tags) + r4;
            let r2 = rec.data + r3;
            let r1 = enc_u16(rec.data.len() as u16) + r2;
            let r0 = enc_str(rec.event_type) + r1;
            assert(v.enc() + rest =~= seq![f] + r0);
            assert((seq![f] + r0)[0] == f);
            assert((seq![f] + r0).skip(1) =~= r0);
            lemma_parse_str_enc(rec.event_type, r1);
            lemma_parse_u16_enc(rec.data.len() as u16, r2);
            assert(r2.take(rec.data.len() as int) =~= rec.data);
            assert(r2.skip(rec.data.len() as int) =~= r3);
            lemma_parse_tags_enc(rec.tags, r4);
            match rec.uuid {
                None => {
                    assert(r4 =~= rest);
                },
                Some(bs) => {
                    assert(r4.take(16) =~= bs);
                    assert(r4.skip(16) =~= rest);
                },
            }
            assert(parse_event_value(v.enc() + rest) == Some((v, rest)));
        },
        EventValueView::Overflow { .. } => {
            assert(false);
        },
    }
}

/// Round trip of an overflow value image.
#[verifier::spinoff_prover]
proof fn lemma_parse_event_value_enc_overflow(v: EventValueView, rest: Seq<u8>)
    requires
        v.wf(),
        v is Overflow,
    ensures
        v.enc().len() == v.size(),
        parse_event_value(v.enc() + rest) == Some((v, rest)),
{
    match v {
        EventValueView::Inline(rec) => {
            assert(false);
        },
        EventValueView::Overflow { event_type, data_len, tags, root_id, uuid } => {
            lemma_enc_tags_len(tags);
            let f = v.flags();
            let r4 = enc_uuid(uuid) + rest;
            let r3 = enc_u64(root_id) + r4;
            let r2 = enc_tags(tags) + r3;
            let r1 = enc_u64(data_len) + r2;
            let r0 = enc_str(event_type) + r1;
            assert(v.enc() + rest =~= seq![f] + r0);
            assert((seq![f] + r0)[0] == f);
            assert((seq![f] + r0).skip(1) =~= r0);
            lemma_parse_str_enc(event_type, r1);
            lemma_parse_u64_enc(data_len, r2);
            lemma_parse_tags_enc(tags, r3);
            lemma_parse_u64_enc(root_id, r4);
            match uuid {
                None => {
                    assert(r4 =~= rest);
                },
                Some(bs) => {
                    assert(r4.take(16) =~= bs);
                    assert(r4.skip(16) =~= rest);
                },
            }
            assert(parse_event_value(v.enc() + rest) == Some((v, rest)));
        },
    }
}

/// Truncating one event value's image short of its end makes its parse
/// fail.
pub proof fn lemma_parse_event_value_trunc(v: EventValueView, u: int)
    requires
        v.wf(),
        0 <= u < v.enc().len(),
    ensures
        parse_event_value(v.enc().take(u)) is None,
{
    match v {
        EventValueView::Inline(rec) => lemma_parse_event_value_trunc_inline(v, u),
        EventValueView::Overflow { .. } => lemma_parse_event_value_trunc_overflow(v, u),
    }
}

/// Truncation failure for an inline value image.
#[verifier::spinoff_prover]
#[verifier::rlimit(60)]
proof fn lemma_parse_event_value_trunc_inline(v: EventValueView, u: int)
    requires
        v.wf(),
        v is Inline,
        0 <= u < v.enc().len(),
    ensures
        parse_event_value(v.enc().take(u)) is None,
{
    lemma_parse_event_value_enc(v, Seq::empty());
    let b = v.enc().take(u);
    if u == 0 {
        return ;
    }
    match v {
        EventValueView::Inline(rec) => {
            let f = v.flags();
            let et_enc = enc_str(rec.event_type);
            let dl_enc = enc_u16(rec.data.len() as u16);
            let tg_enc = enc_tags(rec.tags);
            let uu_enc = enc_uuid(rec.uuid);
            let r0 = et_enc + (dl_enc + (rec.data + (tg_enc + uu_enc)));
            assert(v.enc() =~= seq![f] + r0);
            assert(b[0] == f);
            assert(b.skip(1) =~= r0.take(u - 1));
            let w0 = u - 1;
            lemma_parse_str_enc(rec.event_type, Seq::empty());
            lemma_enc_tags_len(rec.tags);
            if w0 < et_enc.len() {
                assert(r0.take(w0) =~= et_enc.take(w0));
                lemma_parse_str_trunc(rec.event_type, w0);
            } else {
                let w1 = w0 - et_enc.len();
                let r1 = dl_enc + (rec.data + (tg_enc + uu_enc));
                assert(r0.take(w0) =~= et_enc + r1.take(w1));
                lemma_parse_str_enc(rec.event_type, r1.take(w1));
                if w1 < 2 {
                    assert(r1.take(w1).len() < 2);
                } else {
                    lemma_parse_u16_enc(rec.data.len() as u16, rec.data + (tg_enc + uu_enc));
                    assert(r1.take(w1).take(2) =~= dl_enc);
                    assert(parse_u16(r1.take(w1)) == Some(
                        (rec.data.len() as u16, r1.take(w1).skip(2)),
                    ));
                    let w2 = w1 - 2;
                    let r2 = rec.data + (tg_enc + uu_enc);
                    assert(r1.take(w1).skip(2) =~= r2.take(w2));
                    if w2 < rec.data.len() {
                        assert(r2.take(w2).len() < rec.data.len());
                    } else {
                        let w3 = w2 - rec.data.len();
                        let r3 = tg_enc + uu_enc;
                        assert(r2.take(w2).take(rec.data.len() as int) =~= rec.data);
                        assert(r2.take(w2).skip(rec.data.len() as int) =~= r3.take(w3));
                        if w3 < tg_enc.len() {
                            assert(r3.take(w3) =~= tg_enc.take(w3));
                            lemma_parse_tags_trunc(rec.tags, w3);
                        } else {
                            let w4 = w3 - tg_enc.len();
                            assert(r3.take(w3) =~= tg_enc + uu_enc.take(w4));
                            lemma_parse_tags_enc(rec.tags, uu_enc.take(w4));
                            assert(uu_enc.take(w4).len() < uuid_size(rec.uuid));
                            assert(rec.uuid is Some);
                        }
                    }
                }
            }
        },
        EventValueView::Overflow { .. } => {
            assert(false);
        },
    }
}

/// Truncation failure for an overflow value image.
#[verifier::spinoff_prover]
#[verifier::rlimit(60)]
proof fn lemma_parse_event_value_trunc_overflow(v: EventValueView, u: int)
    requires
        v.wf(),
        v is Overflow,
        0 <= u < v.enc().len(),
    ensures
        parse_event_value(v.enc().take(u)) is None,
{
    lemma_parse_event_value_enc(v, Seq::empty());
    let b = v.enc().take(u);
    if u == 0 {
        return ;
    }
    match v {
        EventValueView::Inline(rec) => {
            assert(false);
        },
        EventValueView::Overflow { event_type, data_len, tags, root_id, uuid } => {
            let f = v.flags();
            let et_enc = enc_str(event_type);
            let dl_enc = enc_u64(data_len);
            let tg_enc = enc_tags(tags);
            let rt_enc = enc_u64(root_id);
            let uu_enc = enc_uuid(uuid);
            let r0 = et_enc + (dl_enc + (tg_enc + (rt_enc + uu_enc)));
            assert(v.enc() =~= seq![f] + r0);
            assert(b[0] == f);
            assert(b.skip(1) =~= r0.take(u - 1));
            let w0 = u - 1;
            lemma_parse_str_enc(event_type, Seq::empty());
            lemma_enc_tags_len(tags);
            lemma_parse_u64_enc(data_len, Seq::empty());
            lemma_parse_u64_enc(root_id, Seq::empty());
            if w0 < et_enc.len() {
                assert(r0.take(w0) =~= et_enc.take(w0));
                lemma_parse_str_trunc(event_type, w0);
            } else {
                let w1 = w0 - et_enc.len();
                let r1 = dl_enc + (tg_enc + (rt_enc + uu_enc));
                assert(r0.take(w0) =~= et_enc + r1.take(w1));
                lemma_parse_str_enc(event_type, r1.take(w1));
                if w1 < 8 {
                    assert(r1.take(w1).len() < 8);
                } else {
                    lemma_parse_u64_enc(data_len, tg_enc + (rt_enc + uu_enc));
                    assert(r1.take(w1).take(8) =~= dl_enc);
                    assert(parse_u64(r1.take(w1)) == Some((data_len, r1.take(w1).skip(8))));
                    let w2 = w1 - 8;
                    let r2 = tg_enc + (rt_enc + uu_enc);
                    assert(r1.take(w1).skip(8) =~= r2.take(w2));
                    if w2 < tg_enc.len() {
                        assert(r2.take(w2) =~= tg_enc.take(w2));
                        lemma_parse_tags_trunc(tags, w2);
                    } else {
                        let w3 = w2 - tg_enc.len();
                        let r3 = rt_enc + uu_enc;
                        assert(r2.take(w2) =~= tg_enc + r3.take(w3));
                        lemma_parse_tags_enc(tags, r3.take(w3));
                        if w3 < 8 {
                            assert(r3.take(w3).len() < 8);
                        } else {
                            lemma_parse_u64_enc(root_id, uu_enc);
                            assert(r3.take(w3).take(8) =~= rt_enc);
                            assert(parse_u64(r3.take(w3)) == Some(
                                (root_id, r3.take(w3).skip(8)),
                            ));
                            let w4 = w3 - 8;
                            assert(r3.take(w3).skip(8) =~= uu_enc.take(w4));
                            assert(uu_enc.take(w4).len() < uuid_size(uuid));
                            assert(uuid is Some);
                        }
                    }
                }
            }
        },
    }
}

/// How a plain record compares against a stored value: against an inline
/// value, field for field; against an overflow value, by event type, tags
/// and payload length, since only the payload's length is in the leaf.
pub open spec fn record_matches_value(r: EventRecordView, v: EventValueView) -> bool {
    match v {
        EventValueView::Inline(rv) => {
            &&& r.event_type == rv.event_type
            &&& r.data == rv.data
            &&& r.tags == rv.tags
            &&& r.uuid == rv.uuid
        },
        EventValueView::Overflow { event_type, data_len, tags, .. } => {
            &&& r.event_type == event_type
            &&& r.tags == tags
            &&& r.data.len() == data_len
        },
    }
}

/// Compare two tag vectors by their character sequences.
fn tags_equal(a: &Vec<String>, b: &Vec<String>) -> (r: bool)
    ensures
        r == (strs_view(a@) == strs_view(b@)),
{
    let n = a.len();
    if n != b.len() {
        proof {
            assert(strs_view(a@).len() != strs_view(b@).len());
        }
        return false;
    }
    let mut i: usize = 0;
    while i < n
        invariant
            i <= n,
            n == a@.len(),
            n == b@.len(),
            forall|j: int| 0 <= j < i ==> #[trigger] strs_view(a@)[j] == strs_view(b@)[j],
        decreases n - i,
    {
        if !(a[i] == b[i]) {
            proof {
                assert(strs_view(a@)[i as int] != strs_view(b@)[i as int]);
            }
            return false;
        }
        proof {
            assert(strs_view(a@)[i as int] == strs_view(b@)[i as int]);
        }
        i = i + 1;
    }
    proof {
        assert(strs_view(a@) =~= strs_view(b@));
    }
    true
}

/// Compare two optional identifiers by their raw bytes.
fn uuid_equal(a: &Option<EventUuid>, b: &Option<EventUuid>) -> (r: bool)
    ensures
        r == (opt_uuid_view(*a) == opt_uuid_view(*b)),
{
    match (a, b) {
        (None, None) => true,
        (Some(x), Some(y)) => {
            let eq = x.bytes.eq(&y.bytes);
            proof {
                if eq {
                    assert(x.bytes@ =~= y.bytes@);
                } else {
                    if x.bytes@.len() == y.bytes@.len() {
                        let j = choose|j: int|
                            0 <= j < x.bytes@.len() && !x.bytes@[j].eq_spec(&y.bytes@[j]);
                        assert(x.bytes@[j] != y.bytes@[j]);
                    }
                }
            }
            eq
        },
        _ => false,
    }
}

impl PartialEq<EventValue> for EventRecord {
    /// A record equals an inline value with the same fields; it equals an
    /// overflow value whose event type, tags and payload length match.
    fn eq(&self, other: &EventValue) -> (r: bool) {
        match other {
            EventValue::Inline(rec) => {
                let data_eq = self.data.eq(&rec.data);
                proof {
                    if data_eq {
                        assert(self.data@ =~= rec.data@);
                    } else {
                        if self.data@.len() == rec.data@.len() {
                            let j = choose|j: int|
                                0 <= j < self.data@.len() && !self.data@[j].eq_spec(&rec.data@[j]);
                            assert(self.data@[j] != rec.data@[j]);
                        }
                    }
                }
                self.event_type == rec.event_type && data_eq && tags_equal(&self.tags, &rec.tags)
                    && uuid_equal(&self.uuid, &rec.uuid)
            },
            EventValue::Overflow { event_type, data_len, tags, .. } => {
                self.event_type == *event_type && tags_equal(&self.tags, tags) && (self.data.len()
                    as u64) == *data_len
            },
        }
    }
}

impl vstd::std_specs::cmp::PartialEqSpecImpl<EventValue> for EventRecord {
    open spec fn obeys_eq_spec() -> bool {
        true
    }

    open spec fn eq_spec(&self, other: &EventValue) -> bool {
        record_matches_value(self@, other@)
    }
}

impl PartialEq<EventRecord> for EventValue {
    /// Symmetric form of the record–value comparison.
    fn eq(&self, other: &EventRecord) -> (r: bool) {
        other == self
    }
}

impl vstd::std_specs::cmp::PartialEqSpecImpl<EventRecord> for EventValue {
    open spec fn obeys_eq_spec() -> bool {
        true
    }

    open spec fn eq_spec(&self, other: &EventRecord) -> bool {
        record_matches_value(other@, self@)
    }
}

/// Append the image of one event value to `out`.
fn write_event_value(out: &mut Vec<u8>, value: &EventValue)
    requires
        value@.wf(),
    ensures
        final(out)@ == old(out)@ + value@.enc(),
{
    match value {
        EventValue::Inline(rec) => {
            let flags: u8 = if rec.uuid.is_some() {
                2
            } else {
                0
            };
            push_u8(out, flags);
            push_str(out, rec.event_type.as_str());
            push_u16(out, rec.data.len() as u16);
            out.extend_from_slice(rec.data.as_slice());
            push_tags(out, &rec.tags);
            match &rec.uuid {
                Some(u) => {
                    out.extend_from_slice(u.bytes.as_slice());
                },
                None => {},
            }
            proof {
                assert(out@ =~= old(out)@ + value@.enc());
            }
        },
        EventValue::Overflow { event_type, data_len, tags, root_id, uuid } => {
            let flags: u8 = if uuid.is_some() {
                3
            } else {
                1
            };
            push_u8(out, flags);
            push_str(out, event_type.as_str());
            push_u64(out, *data_len);
            push_tags(out, tags);
            push_u64(out, root_id.0);
            match uuid {
                Some(u) => {
                    out.extend_from_slice(u.bytes.as_slice());
                },
                None => {},
            }
            proof {
                assert(out@ =~= old(out)@ + value@.enc());
            }
        },
    }
}

/// Read one event value starting at byte offset `off`; on success also
/// returns the offset just past the value.
#[verifier::spinoff_prover]
#[verifier::rlimit(60)]
fn read_event_value(s: &[u8], off: usize) -> (r: Result<(EventValue, usize), DbError>)
    requires
        off <= s@.len(),
    ensures
        match r {
            Ok((value, end)) => {
                &&& parse_event_value(s@.skip(off as int)) == Some(
                    (value@, s@.skip(end as int)),
                )
                &&& off <= end <= s@.len()
                &&& value@.wf()
            },
            Err(e) => parse_event_value(s@.skip(off as int)) is None && e is DeserializationError,
        },
{
    let slice_len = s.len();
    if off >= slice_len {
        return Err(DbError::DeserializationError("event value: missing flags"));
    }
    let flags = read_u8_at(s, off);
    proof {
        assert(s@.skip(off as int)[0] == s@[off as int]);
        assert(s@.skip(off as int).skip(1) =~= s@.skip(off as int + 1));
        assert(parse_u8(s@.skip(off as int)) == Some((flags, s@.skip(off as int + 1))));
    }
    if flags > 3 {
        return Err(DbError::DeserializationError("event value: unknown flag bits"));
    }
    let (event_type, et_end) = match read_str(s, off + 1) {
        Ok(ok) => ok,
        Err(e) => {
            return Err(e);
        },
    };
    if flags == 0 || flags == 2 {
        if slice_len - et_end < 2 {
            return Err(DbError::DeserializationError("event value: truncated data length"));
        }
        let dlen16 = read_u16_at(s, et_end);
        let dlen = dlen16 as usize;
        proof {
            assert(s@.skip(et_end as int).take(2) =~= s@.subrange(
                et_end as int,
                et_end as int + 2,
            ));
            assert(s@.skip(et_end as int).skip(2) =~= s@.skip(et_end as int + 2));
            assert(parse_u16(s@.skip(et_end as int)) == Some(
                (dlen16, s@.skip(et_end as int + 2)),
            ));
        }
        if dlen > slice_len - (et_end + 2) {
            return Err(DbError::DeserializationError("event value: truncated data"));
        }
        let data = read_bytes_at(s, et_end + 2, dlen);
        let data_end = et_end + 2 + dlen;
        proof {
            assert(s@.skip(et_end as int + 2).take(dlen as int) =~= s@.subrange(
                et_end as int + 2,
                et_end as int + 2 + dlen as int,
            ));
            assert(s@.skip(et_end as int + 2).skip(dlen as int) =~= s@.skip(data_end as int));
        }
        let (tags, tags_end) = match read_tags(s, data_end) {
            Ok(ok) => ok,
            Err(e) => {
                return Err(e);
            },
        };
        if flags == 2 {
            if slice_len - tags_end < 16 {
                proof {
                    assert(s@.skip(tags_end as int).len() < 16);
                }
                return Err(DbError::DeserializationError("event value: truncated identifier"));
            }
            let ub = read_bytes_at(s, tags_end, 16);
            let end = tags_end + 16;
            let value = EventValue::Inline(
                EventRecord { event_type, data, tags, uuid: Some(EventUuid { bytes: ub }) },
            );
            proof {
                assert(s@.skip(tags_end as int).take(16) =~= s@.subrange(
                    tags_end as int,
                    tags_end as int + 16,
                ));
                assert(s@.skip(tags_end as int).skip(16) =~= s@.skip(end as int));
                assert(parse_event_value(s@.skip(off as int)) == Some(
                    (value@, s@.skip(end as int)),
                ));
            }
            Ok((value, end))
        } else {
            let value = EventValue::Inline(EventRecord { event_type, data, tags, uuid: None });
            proof {
                assert(parse_event_value(s@.skip(off as int)) == Some(
                    (value@, s@.skip(tags_end as int)),
                ));
            }
            Ok((value, tags_end))
        }
    } else {
        if slice_len - et_end < 8 {
            return Err(DbError::DeserializationError("event value: truncated payload length"));
        }
        let data_len = read_u64_at(s, et_end);
        proof {
            assert(s@.skip(et_end as int).take(8) =~= s@.subrange(
                et_end as int,
                et_end as int + 8,
            ));
            assert(s@.skip(et_end as int).skip(8) =~= s@.skip(et_end as int + 8));
            assert(parse_u64(s@.skip(et_end as int)) == Some(
                (data_len, s@.skip(et_end as int + 8)),
            ));
        }
        let (tags, tags_end) = match read_tags(s, et_end + 8) {
            Ok(ok) => ok,
            Err(e) => {
                return Err(e);
            },
        };
        if slice_len - tags_end < 8 {
            return Err(DbError::DeserializationError("event value: truncated chain root"));
        }
        let root = read_u64_at(s, tags_end);
        let rt_end = tags_end + 8;
        proof {
            assert(s@.skip(tags_end as int).take(8) =~= s@.subrange(
                tags_end as int,
                tags_end as int + 8,
            ));
            assert(s@.skip(tags_end as int).skip(8) =~= s@.skip(rt_end as int));
            assert(parse_u64(s@.skip(tags_end as int)) == Some((root, s@.skip(rt_end as int))));
        }
        if flags == 3 {
            if slice_len - rt_end < 16 {
                proof {
                    assert(s@.skip(rt_end as int).len() < 16);
                }
                return Err(DbError::DeserializationError("event value: truncated identifier"));
            }
            let ub = read_bytes_at(s, rt_end, 16);
            let end = rt_end + 16;
            let value = EventValue::Overflow {
                event_type,
                data_len,
                tags,
                root_id: PageID(root),
                uuid: Some(EventUuid { bytes: ub }),
            };
            proof {
                assert(s@.skip(rt_end as int).take(16) =~= s@.subrange(
                    rt_end as int,
                    rt_end as int + 16,
                ));
                assert(s@.skip(rt_end as int).skip(16) =~= s@.skip(end as int));
                assert(parse_event_value(s@.skip(off as int)) == Some(
                    (value@, s@.skip(end as int)),
                ));
            }
            Ok((value, end))
        } else {
            let value = EventValue::Overflow {
                event_type,
                data_len,
                tags,
                root_id: PageID(root),
                uuid: None,
            };
            proof {
                assert(parse_event_value(s@.skip(off as int)) == Some(
                    (value@, s@.skip(rt_end as int)),
                ));
            }
            Ok((value, rt_end))
        }
    }
}

/// Views of a run of event values.
pub open spec fn views_of_event_values(s: Seq<EventValue>) -> Seq<EventValueView> {
    s.map_values(|v: EventValue| v@)
}

/// Every event value image is at least one byte, so sizes are nonnegative.
pub proof fn lemma_event_value_size_nonneg(v: EventValueView)
    ensures
        v.size() >= 0,
{
    match v {
        EventValueView::Inline(rec) => {
            assert forall|i: int| 0 <= i < rec.tags.len() implies crate::wire::tag_size_fn()(
                #[trigger] rec.tags[i],
            ) >= 0 by {}
            lemma_sum_list_nonneg(rec.tags, crate::wire::tag_size_fn());
        },
        EventValueView::Overflow { tags, .. } => {
            assert forall|i: int| 0 <= i < tags.len() implies crate::wire::tag_size_fn()(
                #[trigger] tags[i],
            ) >= 0 by {}
            lemma_sum_list_nonneg(tags, crate::wire::tag_size_fn());
        },
    }
}

/// The concatenated value images are exactly the summed value sizes, for
/// well-formed values.
pub proof fn lemma_enc_event_values_len(s: Seq<EventValueView>)
    requires
        forall|i: int| 0 <= i < s.len() ==> (#[trigger] s[i]).wf(),
    ensures
        enc_list(s, event_value_enc_fn()).len() == sum_list(s, event_value_size_fn()),
    decreases s.len(),
{
    if s.len() > 0 {
        lemma_parse_event_value_enc(s[0], Seq::empty());
        assert(forall|i: int| 0 <= i < s.drop_first().len() ==> (#[trigger] s.drop_first()[i]).wf());
        lemma_enc_event_values_len(s.drop_first());
    }
}

/// Exact size of one event value's byte image, computed as the codec writes
/// it: flags, event type, payload or metadata, tags, optional identifier.
fn calc_event_value_size(value: &EventValue) -> (r: usize)
    requires
        value@.size() <= usize::MAX,
    ensures
        r == value@.size(),
{
    match value {
        EventValue::Inline(rec) => {
            proof {
                assert forall|i: int|
                    0 <= i < rec.tags@.len() implies crate::wire::tag_size_fn()(
                    #[trigger] strs_view(rec.tags@)[i],
                ) >= 0 by {}
                lemma_sum_list_nonneg(strs_view(rec.tags@), crate::wire::tag_size_fn());
            }
            let mut total: usize = 1 + 2;
            total = total + rec.event_type.as_str().len();
            total = total + 2 + rec.data.len();
            total = total + 2;
            let ghost tview = strs_view(rec.tags@);
            let n = rec.tags.len();
            let mut i: usize = 0;
            while i < n
                invariant
                    i <= n,
                    n == rec.tags@.len(),
                    tview == strs_view(rec.tags@),
                    value@.size() <= usize::MAX,
                    value@ == EventValueView::Inline(rec@),
                    total == 1 + 2 + encode_utf8(rec@.event_type).len() + 2 + rec@.data.len() + 2
                        + sum_list(tview.take(i as int), crate::wire::tag_size_fn()),
                decreases n - i,
            {
                proof {
                    assert forall|j: int|
                        0 <= j < tview.len() implies crate::wire::tag_size_fn()(
                        #[trigger] tview[j],
                    ) >= 0 by {}
                    lemma_sum_list_split(tview, i as int + 1, crate::wire::tag_size_fn());
                    assert(forall|j: int|
                        0 <= j < tview.skip(i as int + 1).len() ==> crate::wire::tag_size_fn()(
                            #[trigger] tview.skip(i as int + 1)[j],
                        ) >= 0);
                    lemma_sum_list_nonneg(tview.skip(i as int + 1), crate::wire::tag_size_fn());
                    crate::wire::lemma_sum_list_push(tview.take(i as int), tview[i as int],
                        crate::wire::tag_size_fn());
                    assert(tview.take(i as int + 1) =~= tview.take(i as int).push(
                        tview[i as int],
                    ));
                    assert(tview[i as int] == rec.tags@[i as int]@);
                }
                total = total + 2 + rec.tags[i].as_str().len();
                i = i + 1;
            }
            proof {
                assert(tview.take(n as int) =~= tview);
            }
            if rec.uuid.is_some() {
                total = total + 16;
            }
            total
        },
        EventValue::Overflow { event_type, data_len, tags, root_id, uuid } => {
            proof {
                assert forall|i: int|
                    0 <= i < tags@.len() implies crate::wire::tag_size_fn()(
                    #[trigger] strs_view(tags@)[i],
                ) >= 0 by {}
                lemma_sum_list_nonneg(strs_view(tags@), crate::wire::tag_size_fn());
            }
            let mut total: usize = 1 + 2;
            total = total + event_type.as_str().len();
            total = total + 8 + 2;
            let ghost tview = strs_view(tags@);
            let n = tags.len();
            let mut i: usize = 0;
            while i < n
                invariant
                    i <= n,
                    n == tags@.len(),
                    tview == strs_view(tags@),
                    value@.size() <= usize::MAX,
                    value@ matches EventValueView::Overflow {
                        event_type: et,
                        tags: ts,
                        uuid: uu,
                        ..
                    } && et == event_type@ && ts == tview && uu == opt_uuid_view(*uuid),
                    total == 1 + 2 + encode_utf8(event_type@).len() + 8 + 2 + sum_list(
                        tview.take(i as int),
                        crate::wire::tag_size_fn(),
                    ),
                decreases n - i,
            {
                proof {
                    assert forall|j: int|
                        0 <= j < tview.len() implies crate::wire::tag_size_fn()(
                        #[trigger] tview[j],
                    ) >= 0 by {}
                    lemma_sum_list_split(tview, i as int + 1, crate::wire::tag_size_fn());
                    assert(forall|j: int|
                        0 <= j < tview.skip(i as int + 1).len() ==> crate::wire::tag_size_fn()(
                            #[trigger] tview.skip(i as int + 1)[j],
                        ) >= 0);
                    lemma_sum_list_nonneg(tview.skip(i as int + 1), crate::wire::tag_size_fn());
                    crate::wire::lemma_sum_list_push(tview.take(i as int), tview[i as int],
                        crate::wire::tag_size_fn());
                    assert(tview.take(i as int + 1) =~= tview.take(i as int).push(
                        tview[i as int],
                    ));
                    assert(tview[i as int] == tags@[i as int]@);
                }
                total = total + 2 + tags[i].as_str().len();
                i = i + 1;
            }
            proof {
                assert(tview.take(n as int) =~= tview);
            }
            total = total + 8;
            if uuid.is_some() {
                total = total + 16;
            }
            total
        },
    }
}

/// Leaf node of the event tree: strictly ascending positions and one stored
/// value for each.
#[derive(Debug, Clone, PartialEq, Eq)]
pub struct EventLeafNode {
    pub keys: Vec<Position>,
    pub values: Vec<EventValue>,
}

/// Mathematical image of an [`EventLeafNode`].
pub ghost struct EventLeafView {
    pub keys: Seq<u64>,
    pub values: Seq<EventValueView>,
}

impl View for EventLeafNode {
    type V = EventLeafView;

    open spec fn view(&self) -> EventLeafView {
        EventLeafView {
            keys: u64s_of_positions(self.keys@),
            values: views_of_event_values(self.values@),
        }
    }
}

impl EventLeafView {
    /// Shape every event leaf on disk satisfies: one value per key, a key
    /// count that fits the 16-bit prefix, and well-formed values.
    pub open spec fn wf(self) -> bool {
        &&& self.keys.len() == self.values.len()
        &&& self.keys.len() <= 0xFFFF
        &&& forall|i: int| 0 <= i < self.values.len() ==> (#[trigger] self.values[i]).wf()
    }

    /// Size of the byte image.
    pub open spec fn size(self) -> int {
        2 + 8 * self.keys.len() as int + sum_list(self.values, event_value_size_fn())
    }

    /// Byte image: `u16 keys_len`, the positions, then one value per key.
    pub open spec fn enc(self) -> Seq<u8> {
        enc_u16(self.keys.len() as u16) + enc_u64_seq(self.keys) + enc_list(
            self.values,
            event_value_enc_fn(),
        )
    }
}

/// Decode an event leaf: `u16 keys_len`, `keys_len` positions, then
/// `keys_len` values; anything after those is ignored.
pub open spec fn parse_event_leaf(b: Seq<u8>) -> Option<EventLeafView> {
    match parse_u16(b) {
        None => None,
        Some((klen, r1)) => match parse_u64_seq(r1, klen as nat) {
            None => None,
            Some((keys, r2)) => match parse_list(r2, klen as nat, event_value_parse_fn()) {
                None => None,
                Some((values, _r3)) => Some(EventLeafView { keys, values }),
            },
        },
    }
}

/// Round trip: decoding the byte image of a well-formed event leaf yields
/// that leaf, and the image is exactly `size()` bytes.
pub proof fn lemma_event_leaf_roundtrip(m: EventLeafView)
    requires
        m.wf(),
    ensures
        m.enc().len() == m.size(),
        parse_event_leaf(m.enc()) == Some(m),
{
    let k16 = m.keys.len() as u16;
    let values_enc = enc_list(m.values, event_value_enc_fn());
    let rest1 = enc_u64_seq(m.keys) + values_enc;
    assert(m.enc() =~= enc_u16(k16) + rest1);
    lemma_parse_u16_enc(k16, rest1);
    lemma_enc_u64_seq_len(m.keys);
    lemma_parse_u64_seq_enc(m.keys, values_enc);
    assert forall|v: EventValueView, r: Seq<u8>|
        event_value_wf_fn()(v) implies #[trigger] event_value_parse_fn()(
        event_value_enc_fn()(v) + r,
    ) == Some((v, r)) by {
        lemma_parse_event_value_enc(v, r);
    }
    lemma_parse_list_enc(m.values, Seq::empty(), event_value_enc_fn(), event_value_parse_fn(),
        event_value_wf_fn());
    assert(values_enc + Seq::<u8>::empty() =~= values_enc);
    lemma_enc_event_values_len(m.values);
}

/// Truncation: removing any number of trailing bytes from the byte image of
/// a well-formed event leaf makes decoding fail.
pub proof fn lemma_event_leaf_truncation(m: EventLeafView, t: int)
    requires
        m.wf(),
        0 <= t < m.enc().len(),
    ensures
        parse_event_leaf(m.enc().take(t)) is None,
{
    let k = m.keys.len() as int;
    let k16 = m.keys.len() as u16;
    let values_enc = enc_list(m.values, event_value_enc_fn());
    let rest1 = enc_u64_seq(m.keys) + values_enc;
    let b = m.enc().take(t);
    lemma_parse_u16_enc(k16, rest1);
    lemma_enc_u64_seq_len(m.keys);
    if t < 2 {
    } else {
        assert(b.take(2) =~= (enc_u16(k16) + rest1).take(2));
        let r1 = b.skip(2);
        assert(parse_u16(b) == Some((k16, r1)));
        if t - 2 < 8 * k {
            lemma_parse_u64_seq_short(r1, k as nat);
        } else {
            assert(r1 =~= rest1.take(t - 2));
            assert(enc_u64_seq(m.keys) + values_enc.take(t - 2 - 8 * k) =~= rest1.take(t - 2));
            lemma_parse_u64_seq_enc(m.keys, values_enc.take(t - 2 - 8 * k));
            assert forall|v: EventValueView, r: Seq<u8>|
                event_value_wf_fn()(v) implies #[trigger] event_value_parse_fn()(
                event_value_enc_fn()(v) + r,
            ) == Some((v, r)) by {
                lemma_parse_event_value_enc(v, r);
            }
            assert forall|v: EventValueView, u: int|
                event_value_wf_fn()(v) && 0 <= u < event_value_enc_fn()(v).len() implies #[trigger]
            event_value_parse_fn()(event_value_enc_fn()(v).take(u)) is None by {
                lemma_parse_event_value_trunc(v, u);
            }
            lemma_parse_list_enc_trunc(m.values, t - 2 - 8 * k, event_value_enc_fn(),
                event_value_parse_fn(), event_value_wf_fn());
        }
    }
}

impl EventLeafNode {
    /// Exact size of the byte image: two bytes of key count, eight bytes per
    /// position, and each value's image size.
    pub fn calc_serialized_size(&self) -> (r: usize)
        requires
            self@.size() <= usize::MAX,
        ensures
            r == self@.size(),
            self@.wf() ==> r == self@.enc().len(),
    {
        proof {
            if self@.wf() {
                lemma_event_leaf_roundtrip(self@);
            }
            assert forall|j: int|
                0 <= j < self@.values.len() implies event_value_size_fn()(
                #[trigger] self@.values[j],
            ) >= 0 by {
                lemma_event_value_size_nonneg(self@.values[j]);
            }
            lemma_sum_list_nonneg(self@.values, event_value_size_fn());
        }
        let mut total: usize = 2 + self.keys.len() * 8;
        let n = self.values.len();
        let mut i: usize = 0;
        while i < n
            invariant
                i <= n,
                n == self.values@.len(),
                self@.size() <= usize::MAX,
                total == 2 + 8 * self@.keys.len() + sum_list(
                    self@.values.take(i as int),
                    event_value_size_fn(),
                ),
            decreases n - i,
        {
            proof {
                assert forall|j: int|
                    0 <= j < self@.values.len() implies event_value_size_fn()(
                    #[trigger] self@.values[j],
                ) >= 0 by {
                    lemma_event_value_size_nonneg(self@.values[j]);
                }
                lemma_sum_list_split(self@.values, i as int + 1, event_value_size_fn());
                assert(forall|j: int|
                    0 <= j < self@.values.skip(i as int + 1).len()
                        ==> event_value_size_fn()(#[trigger] self@.values.skip(i as int + 1)[j])
                        >= 0);
                lemma_sum_list_nonneg(self@.values.skip(i as int + 1), event_value_size_fn());
                crate::wire::lemma_sum_list_push(self@.values.take(i as int), self@.values[i
                    as int], event_value_size_fn());
                assert(self@.values.take(i as int + 1) =~= self@.values.take(i as int).push(
                    self@.values[i as int],
                ));
                assert(self@.values[i as int] == self.values@[i as int]@);
            }
            let vsize = calc_event_value_size(&self.values[i]);
            total = total + vsize;
            i = i + 1;
        }
        proof {
            assert(self@.values.take(n as int) =~= self@.values);
        }
        total
    }

    /// Write the byte image into the front of `buf`; returns the number of
    /// bytes written, which equals `calc_serialized_size`.
    pub fn serialize_into(&self, buf: &mut Vec<u8>) -> (r: usize)
        requires
            self@.wf(),
            self@.size() <= usize::MAX,
            self@.enc().len() <= old(buf)@.len(),
        ensures
            r == self@.enc().len(),
            final(buf)@ == self@.enc() + old(buf)@.skip(r as int),
            final(buf)@.len() == old(buf)@.len(),
    {
        proof {
            lemma_event_leaf_roundtrip(self@);
        }
        let mut out: Vec<u8> = Vec::new();
        push_u16(&mut out, self.keys.len() as u16);
        let kvals = positions_to_u64s(&self.keys);
        push_u64_list(&mut out, &kvals);
        let ghost header = enc_u16(self@.keys.len() as u16) + enc_u64_seq(self@.keys);
        let n = self.values.len();
        let mut i: usize = 0;
        while i < n
            invariant
                i <= n,
                n == self.values@.len(),
                self@.wf(),
                header == enc_u16(self@.keys.len() as u16) + enc_u64_seq(self@.keys),
                out@ =~= header + enc_list(self@.values.take(i as int), event_value_enc_fn()),
            decreases n - i,
        {
            let value = &self.values[i];
            let ghost out0 = out@;
            proof {
                assert(self@.values[i as int] == self.values@[i as int]@);
                assert(self@.values[i as int].wf());
            }
            write_event_value(&mut out, value);
            proof {
                assert(out@ =~= out0 + event_value_enc_fn()(self@.values[i as int]));
                lemma_enc_list_push(self@.values.take(i as int), self@.values[i as int],
                    event_value_enc_fn());
                assert(self@.values.take(i as int + 1) =~= self@.values.take(i as int).push(
                    self@.values[i as int],
                ));
                assert(out@ =~= header + enc_list(
                    self@.values.take(i as int + 1),
                    event_value_enc_fn(),
                ));
            }
            i = i + 1;
        }
        proof {
            assert(self@.values.take(n as int) =~= self@.values);
            assert(out@ =~= self@.enc());
        }
        overwrite_prefix(buf, out.as_slice());
        out.len()
    }

    /// Decode a buffer produced by `serialize_into`. Fails with a
    /// deserialization error exactly when the key count, the positions, or
    /// any of the values is malformed or truncated.
    pub fn from_slice(slice: &[u8]) -> (r: DbResult<Self>)
        ensures
            match r {
                Ok(node) => parse_event_leaf(slice@) == Some(node@) && node@.wf(),
                Err(e) => parse_event_leaf(slice@) is None && e is DeserializationError,
            },
    {
        let slice_len = slice.len();
        if slice_len < 2 {
            return Err(DbError::DeserializationError("event leaf: missing key count"));
        }
        let klen16 = read_u16_at(slice, 0);
        let klen = klen16 as usize;
        proof {
            assert(slice@.subrange(0, 2) =~= slice@.take(2));
            assert(parse_u16(slice@) == Some((klen16, slice@.skip(2))));
        }
        if klen * 8 > slice_len - 2 {
            proof {
                lemma_parse_u64_seq_short(slice@.skip(2), klen as nat);
            }
            return Err(DbError::DeserializationError("event leaf: truncated keys"));
        }
        let kvals = read_u64_list(slice, 2, klen);
        let keys = u64s_to_positions(&kvals);
        let keys_end = 2 + klen * 8;
        let ghost b0 = slice@.skip(keys_end as int);
        let mut values: Vec<EventValue> = Vec::new();
        let mut off = keys_end;
        let mut i: usize = 0;
        while i < klen
            invariant
                i <= klen,
                klen <= 0xFFFF,
                klen == klen16 as usize,
                keys_end == 2 + 8 * klen,
                keys_end <= off <= slice_len,
                slice_len == slice@.len(),
                b0 == slice@.skip(keys_end as int),
                parse_u16(slice@) == Some((klen16, slice@.skip(2))),
                parse_u64_seq(slice@.skip(2), klen as nat) == Some((u64s_of_positions(keys@), b0)),
                values@.len() == i,
                parse_list(b0, i as nat, event_value_parse_fn()) == Some(
                    (views_of_event_values(values@), slice@.skip(off as int)),
                ),
                forall|j: int|
                    0 <= j < i ==> (#[trigger] views_of_event_values(values@)[j]).wf(),
            decreases klen - i,
        {
            let ghost rem = slice@.skip(off as int);
            let (value, end) = match read_event_value(slice, off) {
                Ok(ok) => ok,
                Err(e) => {
                    proof {
                        assert(event_value_parse_fn()(rem) is None);
                        lemma_parse_list_split(b0, i as nat, klen as nat, event_value_parse_fn(),
                            views_of_event_values(values@), rem);
                    }
                    return Err(e);
                },
            };
            proof {
                assert(event_value_parse_fn()(rem) == Some((value@, slice@.skip(end as int))));
                lemma_parse_list_snoc(b0, i as nat, event_value_parse_fn(),
                    views_of_event_values(values@), rem, value@, slice@.skip(end as int));
                assert(views_of_event_values(values@.push(value)) =~= views_of_event_values(
                    values@,
                ).push(value@));
            }
            values.push(value);
            off = end;
            i = i + 1;
        }
        let node = EventLeafNode { keys, values };
        proof {
            assert(parse_event_leaf(slice@) == Some(node@));
        }
        Ok(node)
    }

    /// Remove and return the last position and its value, for moving them
    /// into a freshly split right sibling.
    pub fn pop_last_key_and_value(&mut self) -> (r: DbResult<(Position, EventValue)>)
        requires
            old(self).keys@.len() > 0,
            old(self).values@.len() > 0,
        ensures
            r matches Ok((position, value)) && position.0 == old(self)@.keys.last() && value@
                == old(self)@.values.last(),
            final(self)@.keys == old(self)@.keys.drop_last(),
            final(self)@.values == old(self)@.values.drop_last(),
    {
        let last_key = self.keys.pop().unwrap();
        let last_value = self.values.pop().unwrap();
        proof {
            assert(self@.keys =~= old(self)@.keys.drop_last());
            assert(self@.values =~= old(self)@.values.drop_last());
        }
        Ok((last_key, last_value))
    }
}

/// Internal node of the event tree: `K` strictly ascending positions and
/// `K + 1` child pages; `child_ids[i]` covers positions below `keys[i]`, the
/// last child covers everything at or above the last key.
#[derive(Debug, Clone, PartialEq, Eq)]
pub struct EventInternalNode {
    pub keys: Vec<Position>,
    pub child_ids: Vec<PageID>,
}

/// Mathematical image of an [`EventInternalNode`].
pub ghost struct EventInternalView {
    pub keys: Seq<u64>,
    pub child_ids: Seq<u64>,
}

impl View for EventInternalNode {
    type V = EventInternalView;

    open spec fn view(&self) -> EventInternalView {
        EventInternalView {
            keys: u64s_of_positions(self.keys@),
            child_ids: u64s_of_page_ids(self.child_ids@),
        }
    }
}

impl EventInternalView {
    /// Shape every internal node on disk satisfies: the key count fits the
    /// 16-bit prefix and there is exactly one more child than keys.
    pub open spec fn wf(self) -> bool {
        &&& self.keys.len() <= 0xFFFF
        &&& self.child_ids.len() == self.keys.len() + 1
    }

    /// Size of the byte image.
    pub open spec fn size(self) -> int {
        2 + 8 * self.keys.len() as int + 8 * self.child_ids.len() as int
    }

    /// Byte image: `u16 keys_len`, the keys, then the child ids. The child
    /// count is derived from the key count, not re-encoded.
    pub open spec fn enc(self) -> Seq<u8> {
        enc_u16(self.keys.len() as u16) + enc_u64_seq(self.keys) + enc_u64_seq(self.child_ids)
    }
}

/// Decode an event internal node: `u16 keys_len`, `keys_len` positions, then
/// exactly `keys_len + 1` child ids; anything after those is ignored.
pub open spec fn parse_event_internal(b: Seq<u8>) -> Option<EventInternalView> {
    match parse_u16(b) {
        None => None,
        Some((klen, r1)) => match parse_u64_seq(r1, klen as nat) {
            None => None,
            Some((keys, r2)) => match parse_u64_seq(r2, (klen + 1) as nat) {
                None => None,
                Some((child_ids, r3)) => Some(EventInternalView { keys, child_ids }),
            },
        },
    }
}

/// The byte image of an event internal node is exactly `size()` bytes.
pub proof fn lemma_event_internal_enc_len(m: EventInternalView)
    ensures
        m.enc().len() == m.size(),
{
    lemma_parse_u16_enc(m.keys.len() as u16, Seq::empty());
    lemma_enc_u64_seq_len(m.keys);
    lemma_enc_u64_seq_len(m.child_ids);
}

/// Round trip: decoding the byte image of a well-formed event internal node
/// yields that node.
pub proof fn lemma_event_internal_roundtrip(m: EventInternalView)
    requires
        m.wf(),
    ensures
        parse_event_internal(m.enc()) == Some(m),
{
    let k16 = m.keys.len() as u16;
    let rest1 = enc_u64_seq(m.keys) + enc_u64_seq(m.child_ids);
    assert(m.enc() =~= enc_u16(k16) + rest1);
    lemma_parse_u16_enc(k16, rest1);
    lemma_parse_u64_seq_enc(m.keys, enc_u64_seq(m.child_ids));
    lemma_parse_u64_seq_enc(m.child_ids, Seq::empty());
    assert(enc_u64_seq(m.child_ids) + Seq::<u8>::empty() =~= enc_u64_seq(m.child_ids));
}

/// Truncation: removing any number of trailing bytes from the byte image of
/// a well-formed event internal node makes decoding fail.
pub proof fn lemma_event_internal_truncation(m: EventInternalView, t: int)
    requires
        m.wf(),
        0 <= t < m.enc().len(),
    ensures
        parse_event_internal(m.enc().take(t)) is None,
{
    let k = m.keys.len() as int;
    let k16 = m.keys.len() as u16;
    let b = m.enc().take(t);
    lemma_event_internal_enc_len(m);
    lemma_parse_u16_enc(k16, enc_u64_seq(m.keys) + enc_u64_seq(m.child_ids));
    if t < 2 {
    } else {
        assert(b.take(2) =~= (enc_u16(k16) + (enc_u64_seq(m.keys) + enc_u64_seq(
            m.child_ids,
        ))).take(2));
        let r1 = b.skip(2);
        assert(parse_u16(b) == Some((k16, r1)));
        if t - 2 < 8 * k {
            lemma_parse_u64_seq_short(r1, k as nat);
        } else {
            lemma_parse_u64_seq_total(r1, k as nat);
            let r2 = r1.skip(8 * k);
            assert(r2.len() == t - 2 - 8 * k);
            assert(t - 2 - 8 * k < 8 * (k + 1));
            lemma_parse_u64_seq_short(r2, (k + 1) as nat);
        }
    }
}

impl EventInternalNode {
    /// Exact size of the byte image: two bytes of key count plus eight bytes
    /// for every key and every child id.
    pub fn calc_serialized_size(&self) -> (r: usize)
        requires
            self@.size() <= usize::MAX,
        ensures
            r == self@.size(),
            r == self@.enc().len(),
    {
        proof {
            lemma_event_internal_enc_len(self@);
        }
        2 + self.keys.len() * 8 + self.child_ids.len() * 8
    }

    /// Write the byte image into the front of `buf`; returns the number of
    /// bytes written, which equals `calc_serialized_size`.
    pub fn serialize_into(&self, buf: &mut Vec<u8>) -> (r: DbResult<usize>)
        requires
            self@.keys.len() <= 0xFFFF,
            self@.size() <= usize::MAX,
            self@.enc().len() <= old(buf)@.len(),
        ensures
            r == Ok::<usize, DbError>(self@.enc().len() as usize),
            final(buf)@ == self@.enc() + old(buf)@.skip(self@.enc().len() as int),
            final(buf)@.len() == old(buf)@.len(),
    {
        proof {
            lemma_event_internal_enc_len(self@);
        }
        let mut out: Vec<u8> = Vec::new();
        push_u16(&mut out, self.keys.len() as u16);
        let kvals = positions_to_u64s(&self.keys);
        push_u64_list(&mut out, &kvals);
        let cvals = page_ids_to_u64s(&self.child_ids);
        push_u64_list(&mut out, &cvals);
        proof {
            assert(out@ =~= self@.enc());
        }
        overwrite_prefix(buf, out.as_slice());
        Ok(out.len())
    }

    /// Decode a buffer produced by `serialize_into`. Fails with a
    /// deserialization error exactly when the buffer cannot hold the key
    /// count, the keys, or the derived `keys_len + 1` child ids.
    pub fn from_slice(slice: &[u8]) -> (r: DbResult<Self>)
        ensures
            match r {
                Ok(node) => parse_event_internal(slice@) == Some(node@) && node@.wf(),
                Err(e) => parse_event_internal(slice@) is None && e is DeserializationError,
            },
    {
        let slice_len = slice.len();
        if slice_len < 2 {
            return Err(DbError::DeserializationError("event internal node: missing key count"));
        }
        let keys_len_u16 = read_u16_at(slice, 0);
        let keys_len = keys_len_u16 as usize;
        proof {
            assert(slice@.subrange(0, 2) =~= slice@.take(2));
            assert(parse_u16(slice@) == Some((keys_len_u16, slice@.skip(2))));
        }
        if slice_len < 2 + keys_len * 8 {
            proof {
                lemma_parse_u64_seq_short(slice@.skip(2), keys_len as nat);
            }
            return Err(DbError::DeserializationError("event internal node: truncated keys"));
        }
        let kvals = read_u64_list(slice, 2, keys_len);
        let child_ids_len = keys_len + 1;
        let off2 = 2 + keys_len * 8;
        if slice_len < off2 + child_ids_len * 8 {
            proof {
                lemma_parse_u64_seq_short(slice@.skip(off2 as int), child_ids_len as nat);
            }
            return Err(DbError::DeserializationError("event internal node: truncated child ids"));
        }
        let cvals = read_u64_list(slice, off2, child_ids_len);
        let keys = u64s_to_positions(&kvals);
        let child_ids = u64s_to_page_ids(&cvals);
        let node = EventInternalNode { keys, child_ids };
        proof {
            assert(parse_event_internal(slice@) == Some(node@));
        }
        Ok(node)
    }

    /// Swap the last child pointer from `old_id` to `new_id`; reports
    /// corruption (leaving the node unchanged) when the last child is not
    /// `old_id`.
    pub fn replace_last_child_id(&mut self, old_id: PageID, new_id: PageID) -> (r: DbResult<()>)
        requires
            old(self).child_ids@.len() > 0,
        ensures
            final(self)@.keys == old(self)@.keys,
            old(self)@.child_ids.last() == old_id.0 ==> r == Ok::<(), DbError>(())
                && final(self)@.child_ids == old(self)@.child_ids.update(
                old(self)@.child_ids.len() - 1,
                new_id.0,
            ),
            old(self)@.child_ids.last() != old_id.0 ==> (r matches Err(e) && e is DatabaseCorrupted
                && final(self)@.child_ids == old(self)@.child_ids),
    {
        let last_idx = self.child_ids.len() - 1;
        if self.child_ids[last_idx] == old_id {
            self.child_ids.set(last_idx, new_id);
            proof {
                assert(self@.child_ids =~= old(self)@.child_ids.update(
                    old(self)@.child_ids.len() - 1,
                    new_id.0,
                ));
            }
            Ok(())
        } else {
            Err(DbError::DatabaseCorrupted("child id mismatch"))
        }
    }

    /// Append a promoted key together with the page id of the new right
    /// sibling it points at.
    pub fn append_promoted_key_and_page_id(
        &mut self,
        promoted_key: Position,
        promoted_page_id: PageID,
    ) -> (r: DbResult<()>)
        ensures
            r == Ok::<(), DbError>(()),
            final(self)@.keys == old(self)@.keys.push(promoted_key.0),
            final(self)@.child_ids == old(self)@.child_ids.push(promoted_page_id.0),
    {
        self.keys.push(promoted_key);
        self.child_ids.push(promoted_page_id);
        proof {
            assert(self@.keys =~= old(self)@.keys.push(promoted_key.0));
            assert(self@.child_ids =~= old(self)@.child_ids.push(promoted_page_id.0));
        }
        Ok(())
    }

    /// Off-center split: the key at `len - 2` is promoted, the tail from that
    /// index onward moves to a new right sibling, leaving the left node
    /// near-full and the right one with a single key.
    pub fn split_off(&mut self) -> (r: DbResult<(Position, Vec<Position>, Vec<PageID>)>)
        requires
            old(self).keys@.len() >= 2,
            old(self).child_ids@.len() >= old(self).keys@.len() - 1,
        ensures
            r matches Ok((promoted, new_keys, new_child_ids)) && {
                let mid = old(self)@.keys.len() - 2;
                &&& promoted.0 == old(self)@.keys[mid]
                &&& final(self)@.keys == old(self)@.keys.take(mid)
                &&& u64s_of_positions(new_keys@) == old(self)@.keys.skip(mid + 1)
                &&& final(self)@.child_ids == old(self)@.child_ids.take(mid + 1)
                &&& u64s_of_page_ids(new_child_ids@) == old(self)@.child_ids.skip(mid + 1)
            },
    {
        let middle_idx = self.keys.len() - 2;
        let promoted_key = self.keys.remove(middle_idx);
        let new_keys = self.keys.split_off(middle_idx);
        let new_child_ids = self.child_ids.split_off(middle_idx + 1);
        proof {
            let mid = middle_idx as int;
            assert(self@.keys =~= old(self)@.keys.take(mid));
            assert(u64s_of_positions(new_keys@) =~= old(self)@.keys.skip(mid + 1));
            assert(self@.child_ids =~= old(self)@.child_ids.take(mid + 1));
            assert(u64s_of_page_ids(new_child_ids@) =~= old(self)@.child_ids.skip(mid + 1));
        }
        Ok((promoted_key, new_keys, new_child_ids))
    }
}

} // verus!
