//! Nodes of the free-list tree: the TSN-keyed B⁺-tree recording, for each
//! committed transaction, the set of pages that commit made reclaimable.
//! When one transaction frees more pages than fit inline in a leaf entry,
//! the entry spills into a nested "TSN subtree" keyed by page id.

use crate::common::page_ids_to_u64s;
use crate::common::tsns_to_u64s;
use crate::common::u64s_of_page_ids;
use crate::common::u64s_of_tsns;
use crate::common::u64s_to_page_ids;
use crate::common::u64s_to_tsns;
use crate::common::PageID;
use crate::common::Tsn;
use crate::errors::DbError;
use crate::errors::DbResult;
use crate::wire::enc_counted_u64s;
use crate::wire::enc_list;
use crate::wire::enc_u16;
use crate::wire::enc_u64;
use crate::wire::enc_u64_seq;
use crate::wire::lemma_enc_list_push;
use crate::wire::lemma_enc_u64_seq_len;
use crate::wire::lemma_parse_counted_u64s_enc;
use crate::wire::lemma_parse_counted_u64s_trunc;
use crate::wire::lemma_parse_list_enc;
use crate::wire::lemma_parse_list_enc_trunc;
use crate::wire::lemma_parse_list_snoc;
use crate::wire::lemma_parse_list_split;
use crate::wire::lemma_parse_u16_enc;
use crate::wire::lemma_parse_u64_enc;
use crate::wire::lemma_parse_u64_seq_enc;
use crate::wire::lemma_parse_u64_seq_short;
use crate::wire::overwrite_prefix;
use crate::wire::parse_counted_u64s;
use crate::wire::parse_list;
use crate::wire::parse_u16;
use crate::wire::parse_u64;
use crate::wire::parse_u64_seq;
use crate::wire::push_counted_u64s;
use crate::wire::push_u16;
use crate::wire::push_u64;
use crate::wire::push_u64_list;
use crate::wire::read_counted_u64s;
use crate::wire::read_u16_at;
use crate::wire::read_u64_at;
use crate::wire::read_u64_list;
use vstd::prelude::*;

verus! {

// ---------------------------------------------------------------------------
// Free-list leaf
// ---------------------------------------------------------------------------
/// Per-TSN entry of a free-list leaf: freed page ids held inline, or, once
/// they no longer fit the page, spilled into a TSN subtree rooted at
/// `root_id`. `root_id == PageID(0)` means "no subtree, use the inline
/// list".
#[derive(Debug, Clone, PartialEq, Eq)]
pub struct FreeListLeafValue {
    pub page_ids: Vec<PageID>,
    pub root_id: PageID,
}

/// Mathematical image of a [`FreeListLeafValue`].
pub ghost struct FreeListLeafValueView {
    pub page_ids: Seq<u64>,
    pub root_id: u64,
}

impl View for FreeListLeafValue {
    type V = FreeListLeafValueView;

    open spec fn view(&self) -> FreeListLeafValueView {
        FreeListLeafValueView {
            page_ids: u64s_of_page_ids(self.page_ids@),
            root_id: self.root_id.0,
        }
    }
}

impl FreeListLeafValueView {
    /// The inline page-id count must fit the 16-bit prefix.
    pub open spec fn wf(self) -> bool {
        self.page_ids.len() <= 0xFFFF
    }

    /// Size of the byte image.
    pub open spec fn size(self) -> int {
        10 + 8 * self.page_ids.len() as int
    }

    /// Byte image: counted inline page ids, then `u64 root_id`.
    pub open spec fn enc(self) -> Seq<u8> {
        enc_counted_u64s(self.page_ids) + enc_u64(self.root_id)
    }
}

/// Decode one free-list leaf entry from the front of `b`.
pub open spec fn parse_fl_leaf_value(b: Seq<u8>) -> Option<(FreeListLeafValueView, Seq<u8>)> {
    match parse_counted_u64s(b) {
        None => None,
        Some((page_ids, r1)) => match parse_u64(r1) {
            None => None,
            Some((root_id, r2)) => Some((FreeListLeafValueView { page_ids, root_id }, r2)),
        },
    }
}

/// Encoder of one free-list leaf entry, as a first-class function.
pub open spec fn fl_value_enc_fn() -> spec_fn(FreeListLeafValueView) -> Seq<u8> {
    |v: FreeListLeafValueView| v.enc()
}

/// Parser of one free-list leaf entry, as a first-class function.
pub open spec fn fl_value_parse_fn() -> spec_fn(Seq<u8>) -> Option<
    (FreeListLeafValueView, Seq<u8>),
> {
    |b: Seq<u8>| parse_fl_leaf_value(b)
}

/// Well-formedness of one free-list leaf entry, as a first-class function.
pub open spec fn fl_value_wf_fn() -> spec_fn(FreeListLeafValueView) -> bool {
    |v: FreeListLeafValueView| v.wf()
}

/// One free-list leaf entry round-trips in front of any suffix, and its
/// image is exactly `size()` bytes.
pub proof fn lemma_fl_leaf_value_enc(v: FreeListLeafValueView, rest: Seq<u8>)
    requires
        v.wf(),
    ensures
        v.enc().len() == v.size(),
        parse_fl_leaf_value(v.enc() + rest) == Some((v, rest)),
{
    lemma_parse_counted_u64s_enc(v.page_ids, enc_u64(v.root_id) + rest);
    lemma_parse_u64_enc(v.root_id, rest);
    assert(v.enc() + rest =~= enc_counted_u64s(v.page_ids) + (enc_u64(v.root_id) + rest));
}

/// Truncating one free-list leaf entry's image short of its end makes its
/// parse fail.
pub proof fn lemma_fl_leaf_value_trunc(v: FreeListLeafValueView, u: int)
    requires
        v.wf(),
        0 <= u < v.enc().len(),
    ensures
        parse_fl_leaf_value(v.enc().take(u)) is None,
{
    let counted = enc_counted_u64s(v.page_ids);
    lemma_parse_counted_u64s_enc(v.page_ids, enc_u64(v.root_id));
    lemma_parse_u64_enc(v.root_id, Seq::empty());
    let b = v.enc().take(u);
    if u < counted.len() {
        assert(b =~= counted.take(u));
        lemma_parse_counted_u64s_trunc(v.page_ids, u);
    } else {
        let tail_trunc = enc_u64(v.root_id).take(u - counted.len());
        assert(b =~= counted + tail_trunc);
        lemma_parse_counted_u64s_enc(v.page_ids, tail_trunc);
        assert(tail_trunc.len() < 8);
    }
}

/// Views of a run of free-list leaf entries.
pub open spec fn views_of_fl_values(s: Seq<FreeListLeafValue>) -> Seq<FreeListLeafValueView> {
    s.map_values(|v: FreeListLeafValue| v@)
}

/// Total byte size of a run of free-list leaf entries.
pub open spec fn fl_values_size(s: Seq<FreeListLeafValueView>) -> int
    decreases s.len(),
{
    if s.len() == 0 {
        0
    } else {
        s[0].size() + fl_values_size(s.drop_first())
    }
}

/// Entry sizes are positive, so the total size is nonnegative.
pub proof fn lemma_fl_values_size_nonneg(s: Seq<FreeListLeafValueView>)
    ensures
        fl_values_size(s) >= 0,
    decreases s.len(),
{
    if s.len() > 0 {
        lemma_fl_values_size_nonneg(s.drop_first());
    }
}

/// The total size of a run splits around any index.
pub proof fn lemma_fl_values_size_split(s: Seq<FreeListLeafValueView>, i: int)
    requires
        0 <= i <= s.len(),
    ensures
        fl_values_size(s) == fl_values_size(s.take(i)) + fl_values_size(s.skip(i)),
    decreases i,
{
    if i == 0 {
        assert(s.take(0) =~= Seq::<FreeListLeafValueView>::empty());
        assert(s.skip(0) =~= s);
    } else {
        lemma_fl_values_size_split(s.drop_first(), i - 1);
        assert(s.take(i)[0] == s[0]);
        assert(s.take(i).drop_first() =~= s.drop_first().take(i - 1));
        assert(s.skip(i) =~= s.drop_first().skip(i - 1));
    }
}

/// The image of a run of entries is exactly `fl_values_size` bytes.
pub proof fn lemma_fl_values_enc_len(s: Seq<FreeListLeafValueView>)
    ensures
        enc_list(s, fl_value_enc_fn()).len() == fl_values_size(s),
    decreases s.len(),
{
    if s.len() > 0 {
        lemma_parse_u16_enc(s[0].page_ids.len() as u16, Seq::empty());
        lemma_enc_u64_seq_len(s[0].page_ids);
        lemma_parse_u64_enc(s[0].root_id, Seq::empty());
        assert(fl_value_enc_fn()(s[0]).len() == s[0].size());
        lemma_fl_values_enc_len(s.drop_first());
    }
}

/// Leaf of the free-list tree: TSN keys and, for each, the entry describing
/// the pages that transaction freed.
#[derive(Debug, Clone, PartialEq, Eq)]
pub struct FreeListLeafNode {
    pub keys: Vec<Tsn>,
    pub values: Vec<FreeListLeafValue>,
}

/// Mathematical image of a [`FreeListLeafNode`].
pub ghost struct FreeListLeafView {
    pub keys: Seq<u64>,
    pub values: Seq<FreeListLeafValueView>,
}

impl View for FreeListLeafNode {
    type V = FreeListLeafView;

    open spec fn view(&self) -> FreeListLeafView {
        FreeListLeafView {
            keys: u64s_of_tsns(self.keys@),
            values: views_of_fl_values(self.values@),
        }
    }
}

impl FreeListLeafView {
    /// Shape every free-list leaf on disk satisfies: one entry per key, a
    /// key count that fits the 16-bit prefix, and well-formed entries.
    pub open spec fn wf(self) -> bool {
        &&& self.keys.len() == self.values.len()
        &&& self.keys.len() <= 0xFFFF
        &&& forall|i: int| 0 <= i < self.values.len() ==> (#[trigger] self.values[i]).wf()
    }

    /// Size of the byte image.
    pub open spec fn size(self) -> int {
        2 + 8 * self.keys.len() as int + fl_values_size(self.values)
    }

    /// Byte image: `u16 keys_len`, the TSN keys, then one entry per key.
    pub open spec fn enc(self) -> Seq<u8> {
        enc_u16(self.keys.len() as u16) + enc_u64_seq(self.keys) + enc_list(
            self.values,
            fl_value_enc_fn(),
        )
    }
}

/// Decode a free-list leaf: `u16 keys_len`, `keys_len` TSNs, then
/// `keys_len` entries; anything after those is ignored.
pub open spec fn parse_fl_leaf(b: Seq<u8>) -> Option<FreeListLeafView> {
    match parse_u16(b) {
        None => None,
        Some((klen, r1)) => match parse_u64_seq(r1, klen as nat) {
            None => None,
            Some((keys, r2)) => match parse_list(r2, klen as nat, fl_value_parse_fn()) {
                None => None,
                Some((values, _r3)) => Some(FreeListLeafView { keys, values }),
            },
        },
    }
}

/// Round trip: decoding the byte image of a well-formed free-list leaf
/// yields that leaf, and the image is exactly `size()` bytes.
pub proof fn lemma_fl_leaf_roundtrip(m: FreeListLeafView)
    requires
        m.wf(),
    ensures
        m.enc().len() == m.size(),
        parse_fl_leaf(m.enc()) == Some(m),
{
    let k16 = m.keys.len() as u16;
    let values_enc = enc_list(m.values, fl_value_enc_fn());
    let rest1 = enc_u64_seq(m.keys) + values_enc;
    assert(m.enc() =~= enc_u16(k16) + rest1);
    lemma_parse_u16_enc(k16, rest1);
    lemma_enc_u64_seq_len(m.keys);
    lemma_parse_u64_seq_enc(m.keys, values_enc);
    assert forall|v: FreeListLeafValueView, r: Seq<u8>|
        fl_value_wf_fn()(v) implies #[trigger] fl_value_parse_fn()(
        fl_value_enc_fn()(v) + r,
    ) == Some((v, r)) by {
        lemma_fl_leaf_value_enc(v, r);
    }
    lemma_parse_list_enc(m.values, Seq::empty(), fl_value_enc_fn(), fl_value_parse_fn(),
        fl_value_wf_fn());
    assert(values_enc + Seq::<u8>::empty() =~= values_enc);
    lemma_fl_values_enc_len(m.values);
}

/// Truncation: removing any number of trailing bytes from the byte image of
/// a well-formed free-list leaf makes decoding fail.
pub proof fn lemma_fl_leaf_truncation(m: FreeListLeafView, t: int)
    requires
        m.wf(),
        0 <= t < m.enc().len(),
    ensures
        parse_fl_leaf(m.enc().take(t)) is None,
{
    let k = m.keys.len() as int;
    let k16 = m.keys.len() as u16;
    let values_enc = enc_list(m.values, fl_value_enc_fn());
    let rest1 = enc_u64_seq(m.keys) + values_enc;
    let b = m.enc().take(t);
    lemma_parse_u16_enc(k16, rest1);
    lemma_enc_u64_seq_len(m.keys);
    if t < 2 {
    } else {
        assert(b.take(2) =~= (enc_u16(k16) + rest1).take(2));
        let r1 = b.skip(2);
        assert(parse_u16(b) == Some((k16, r1)));
        if t - 2 < 8 * k {
            lemma_parse_u64_seq_short(r1, k as nat);
        } else {
            assert(r1 =~= rest1.take(t - 2));
            assert(enc_u64_seq(m.keys) + values_enc.take(t - 2 - 8 * k) =~= rest1.take(t - 2));
            lemma_parse_u64_seq_enc(m.keys, values_enc.take(t - 2 - 8 * k));
            assert forall|v: FreeListLeafValueView, r: Seq<u8>|
                fl_value_wf_fn()(v) implies #[trigger] fl_value_parse_fn()(
                fl_value_enc_fn()(v) + r,
            ) == Some((v, r)) by {
                lemma_fl_leaf_value_enc(v, r);
            }
            assert forall|v: FreeListLeafValueView, u: int|
                fl_value_wf_fn()(v) && 0 <= u < fl_value_enc_fn()(v).len() implies #[trigger]
            fl_value_parse_fn()(fl_value_enc_fn()(v).take(u)) is None by {
                lemma_fl_leaf_value_trunc(v, u);
            }
            lemma_parse_list_enc_trunc(m.values, t - 2 - 8 * k, fl_value_enc_fn(),
                fl_value_parse_fn(), fl_value_wf_fn());
        }
    }
}

impl FreeListLeafNode {
    /// Exact size of the byte image: two bytes of key count, eight bytes per
    /// TSN, and for each entry two bytes of count, eight bytes per inline
    /// page id and eight bytes of subtree root.
    pub fn calc_serialized_size(&self) -> (r: usize)
        requires
            self@.size() <= usize::MAX,
        ensures
            r == self@.size(),
            r == self@.enc().len(),
    {
        proof {
            lemma_parse_u16_enc(self@.keys.len() as u16, Seq::empty());
            lemma_enc_u64_seq_len(self@.keys);
            lemma_fl_values_enc_len(self@.values);
            lemma_fl_values_size_nonneg(self@.values);
        }
        let mut total: usize = 2 + self.keys.len() * 8;
        let n = self.values.len();
        let mut i: usize = 0;
        while i < n
            invariant
                i <= n,
                n == self.values@.len(),
                self@.size() <= usize::MAX,
                total == 2 + 8 * self@.keys.len() + fl_values_size(self@.values.take(i as int)),
            decreases n - i,
        {
            proof {
                lemma_fl_values_size_split(self@.values, i as int);
                lemma_fl_values_size_split(self@.values.skip(i as int), 1);
                lemma_fl_values_size_nonneg(self@.values.skip(i as int).skip(1));
                lemma_fl_values_size_nonneg(self@.values.take(i as int));
                assert(self@.values.skip(i as int).take(1)[0] == self@.values[i as int]);
                assert(fl_values_size(self@.values.skip(i as int).take(1)) == self@.values[i
                    as int].size() + fl_values_size(Seq::<FreeListLeafValueView>::empty()));
                assert(fl_values_size(self@.values.take(i as int + 1)) == fl_values_size(
                    self@.values.take(i as int),
                ) + self@.values[i as int].size()) by {
                    lemma_fl_values_size_split(self@.values.take(i as int + 1), i as int);
                    assert(self@.values.take(i as int + 1).take(i as int) =~= self@.values.take(
                        i as int,
                    ));
                    assert(self@.values.take(i as int + 1).skip(i as int) =~= self@.values.skip(
                        i as int,
                    ).take(1));
                }
                assert(self@.values[i as int].size() == 10 + 8 * self.values@[i as int].page_ids@.len());
            }
            let value = &self.values[i];
            total = total + 2 + value.page_ids.len() * 8 + 8;
            i = i + 1;
        }
        proof {
            assert(self@.values.take(n as int) =~= self@.values);
        }
        total
    }

    /// Write the byte image into the front of `buf`; returns the number of
    /// bytes written, which equals `calc_serialized_size`.
    pub fn serialize_into(&self, buf: &mut Vec<u8>) -> (r: usize)
        requires
            self@.wf(),
            self@.size() <= usize::MAX,
            self@.enc().len() <= old(buf)@.len(),
        ensures
            r == self@.enc().len(),
            final(buf)@ == self@.enc() + old(buf)@.skip(r as int),
            final(buf)@.len() == old(buf)@.len(),
    {
        proof {
            lemma_fl_leaf_roundtrip(self@);
        }
        let mut out: Vec<u8> = Vec::new();
        push_u16(&mut out, self.keys.len() as u16);
        let kvals = tsns_to_u64s(&self.keys);
        push_u64_list(&mut out, &kvals);
        let ghost header = enc_u16(self@.keys.len() as u16) + enc_u64_seq(self@.keys);
        let n = self.values.len();
        let mut i: usize = 0;
        while i < n
            invariant
                i <= n,
                n == self.values@.len(),
                self@.wf(),
                header == enc_u16(self@.keys.len() as u16) + enc_u64_seq(self@.keys),
                out@ =~= header + enc_list(
                    self@.values.take(i as int),
                    fl_value_enc_fn(),
                ),
            decreases n - i,
        {
            let value = &self.values[i];
            let ghost out0 = out@;
            let pvals = page_ids_to_u64s(&value.page_ids);
            proof {
                assert(self@.values[i as int].wf());
                assert(pvals@ == self@.values[i as int].page_ids);
            }
            push_counted_u64s(&mut out, &pvals);
            push_u64(&mut out, value.root_id.0);
            proof {
                assert(out@ =~= out0 + fl_value_enc_fn()(self@.values[i as int]));
                lemma_enc_list_push(self@.values.take(i as int), self@.values[i as int],
                    fl_value_enc_fn());
                assert(self@.values.take(i as int + 1) =~= self@.values.take(i as int).push(
                    self@.values[i as int],
                ));
                assert(out@ =~= header + enc_list(
                    self@.values.take(i as int + 1),
                    fl_value_enc_fn(),
                ));
            }
            i = i + 1;
        }
        proof {
            assert(self@.values.take(n as int) =~= self@.values);
            assert(out@ =~= self@.enc());
        }
        overwrite_prefix(buf, out.as_slice());
        out.len()
    }

    /// Decode a buffer produced by `serialize_into`. Fails with a
    /// deserialization error exactly when the key count, the keys, or any of
    /// the entries is truncated.
    pub fn from_slice(slice: &[u8]) -> (r: DbResult<Self>)
        ensures
            match r {
                Ok(node) => parse_fl_leaf(slice@) == Some(node@) && node@.wf(),
                Err(e) => parse_fl_leaf(slice@) is None && e is DeserializationError,
            },
    {
        let slice_len = slice.len();
        if slice_len < 2 {
            return Err(DbError::DeserializationError("free-list leaf: missing key count"));
        }
        let klen16 = read_u16_at(slice, 0);
        let klen = klen16 as usize;
        proof {
            assert(slice@.subrange(0, 2) =~= slice@.take(2));
            assert(parse_u16(slice@) == Some((klen16, slice@.skip(2))));
        }
        if klen * 8 > slice_len - 2 {
            proof {
                lemma_parse_u64_seq_short(slice@.skip(2), klen as nat);
            }
            return Err(DbError::DeserializationError("free-list leaf: truncated keys"));
        }
        let kvals = read_u64_list(slice, 2, klen);
        let keys = u64s_to_tsns(&kvals);
        let keys_end = 2 + klen * 8;
        let ghost b0 = slice@.skip(keys_end as int);
        let mut values: Vec<FreeListLeafValue> = Vec::new();
        let mut off = keys_end;
        let mut i: usize = 0;
        while i < klen
            invariant
                i <= klen,
                klen <= 0xFFFF,
                klen == klen16 as usize,
                keys_end == 2 + 8 * klen,
                keys_end <= off <= slice_len,
                slice_len == slice@.len(),
                b0 == slice@.skip(keys_end as int),
                parse_u16(slice@) == Some((klen16, slice@.skip(2))),
                parse_u64_seq(slice@.skip(2), klen as nat) == Some((u64s_of_tsns(keys@), b0)),
                values@.len() == i,
                parse_list(b0, i as nat, fl_value_parse_fn()) == Some(
                    (views_of_fl_values(values@), slice@.skip(off as int)),
                ),
                forall|j: int|
                    0 <= j < i ==> (#[trigger] views_of_fl_values(values@)[j]).wf(),
            decreases klen - i,
        {
            let ghost rem = slice@.skip(off as int);
            let (pvals, pend) = match read_counted_u64s(slice, off) {
                Ok(ok) => ok,
                Err(e) => {
                    proof {
                        assert(fl_value_parse_fn()(rem) is None);
                        lemma_parse_list_split(b0, i as nat, klen as nat, fl_value_parse_fn(),
                            views_of_fl_values(values@), rem);
                    }
                    return Err(e);
                },
            };
            if slice_len - pend < 8 {
                proof {
                    assert(parse_counted_u64s(rem) == Some((pvals@, slice@.skip(pend as int))));
                    assert(slice@.skip(pend as int).len() < 8);
                    assert(fl_value_parse_fn()(rem) is None);
                    lemma_parse_list_split(b0, i as nat, klen as nat, fl_value_parse_fn(),
                        views_of_fl_values(values@), rem);
                }
                return Err(DbError::DeserializationError("free-list leaf: truncated root id"));
            }
            let root = read_u64_at(slice, pend);
            let value = FreeListLeafValue { page_ids: u64s_to_page_ids(&pvals), root_id: PageID(root) };
            proof {
                assert(slice@.skip(pend as int).take(8) =~= slice@.subrange(
                    pend as int,
                    pend as int + 8,
                ));
                assert(slice@.skip(pend as int).skip(8) =~= slice@.skip(pend as int + 8));
                assert(parse_u64(slice@.skip(pend as int)) == Some(
                    (root, slice@.skip(pend as int + 8)),
                ));
                assert(fl_value_parse_fn()(rem) == Some((value@, slice@.skip(pend as int + 8))));
                lemma_parse_list_snoc(b0, i as nat, fl_value_parse_fn(),
                    views_of_fl_values(values@), rem, value@, slice@.skip(pend as int + 8));
                assert(views_of_fl_values(values@.push(value)) =~= views_of_fl_values(
                    values@,
                ).push(value@));
            }
            values.push(value);
            off = pend + 8;
            i = i + 1;
        }
        let node = FreeListLeafNode { keys, values };
        proof {
            assert(parse_list(b0, klen as nat, fl_value_parse_fn()) == Some(
                (views_of_fl_values(values@), slice@.skip(off as int)),
            ));
            assert(parse_fl_leaf(slice@) == Some(node@));
        }
        Ok(node)
    }

    /// Whether a fresh `(tsn, [page_id])` entry would still fit a node
    /// budget of `max_node_size` bytes: it adds a key, a count, one inline
    /// page id and a subtree root, 26 bytes in all.
    pub fn would_fit_new_tsn_and_page_id(&self, max_node_size: usize) -> (r: bool)
        requires
            self@.size() + 26 <= usize::MAX,
        ensures
            r == (self@.size() + 26 <= max_node_size),
    {
        self.calc_serialized_size() + 8 + 2 + 8 + 8 <= max_node_size
    }

    /// Record the first page freed by a transaction not yet present in this
    /// leaf: a fresh entry with one inline page id and no subtree.
    pub fn push_new_key_and_value(&mut self, tsn: Tsn, page_id: PageID)
        ensures
            final(self)@.keys == old(self)@.keys.push(tsn.0),
            final(self)@.values == old(self)@.values.push(
                FreeListLeafValueView { page_ids: seq![page_id.0], root_id: 0 },
            ),
    {
        self.keys.push(tsn);
        self.values.push(FreeListLeafValue { page_ids: vec![page_id], root_id: PageID(0) });
        proof {
            assert(self@.keys =~= old(self)@.keys.push(tsn.0));
            assert(u64s_of_page_ids(self.values@.last().page_ids@) =~= seq![page_id.0]);
            assert(self@.values =~= old(self)@.values.push(
                FreeListLeafValueView { page_ids: seq![page_id.0], root_id: 0 },
            ));
        }
    }

    /// Whether one more inline page id would still fit a node budget of
    /// `max_node_size` bytes.
    pub fn would_fit_new_page_id(&self, max_node_size: usize) -> (r: bool)
        requires
            self@.size() + 8 <= usize::MAX,
        ensures
            r == (self@.size() + 8 <= max_node_size),
    {
        self.calc_serialized_size() + 8 <= max_node_size
    }

    /// Append one more freed page id to the inline list of the entry at
    /// `idx`.
    pub fn push_new_page_id(&mut self, idx: usize, page_id: PageID)
        requires
            idx < old(self).values@.len(),
        ensures
            final(self)@.keys == old(self)@.keys,
            final(self)@.values == old(self)@.values.update(
                idx as int,
                FreeListLeafValueView {
                    page_ids: old(self)@.values[idx as int].page_ids.push(page_id.0),
                    root_id: old(self)@.values[idx as int].root_id,
                },
            ),
    {
        self.values[idx].page_ids.push(page_id);
        proof {
            let vold = old(self).values@[idx as int];
            let vnew = self.values@[idx as int];
            let wnew = FreeListLeafValueView {
                page_ids: old(self)@.values[idx as int].page_ids.push(page_id.0),
                root_id: old(self)@.values[idx as int].root_id,
            };
            assert(vnew.page_ids@ == vold.page_ids@.push(page_id));
            assert(u64s_of_page_ids(vnew.page_ids@) =~= u64s_of_page_ids(vold.page_ids@).push(
                page_id.0,
            ));
            assert(vnew@ == wnew);
            assert(self.values@ == old(self).values@.update(idx as int, vnew));
            assert(self@.values =~= old(self)@.values.update(idx as int, wnew));
            assert(self@.keys =~= old(self)@.keys);
        }
    }

    /// Remove and return the last key and its entry, for moving them into a
    /// freshly split right sibling.
    pub fn pop_last_key_and_value(&mut self) -> (r: DbResult<(Tsn, FreeListLeafValue)>)
        requires
            old(self).keys@.len() > 0,
            old(self).values@.len() > 0,
        ensures
            r matches Ok((tsn, value)) && tsn.0 == old(self)@.keys.last() && value@ == old(
                self,
            )@.values.last(),
            final(self)@.keys == old(self)@.keys.drop_last(),
            final(self)@.values == old(self)@.values.drop_last(),
    {
        let last_key = self.keys.pop().unwrap();
        let last_value = self.values.pop().unwrap();
        proof {
            assert(self@.keys =~= old(self)@.keys.drop_last());
            assert(self@.values =~= old(self)@.values.drop_last());
        }
        Ok((last_key, last_value))
    }
}

// ---------------------------------------------------------------------------
// TSN subtree leaf
// ---------------------------------------------------------------------------
/// Leaf of the nested per-TSN subtree: an ordered run of freed page ids.
#[derive(Debug, Clone, PartialEq, Eq)]
pub struct FreeListTsnLeafNode {
    pub page_ids: Vec<PageID>,
}

/// Mathematical image of a [`FreeListTsnLeafNode`].
pub ghost struct FreeListTsnLeafView {
    pub page_ids: Seq<u64>,
}

impl View for FreeListTsnLeafNode {
    type V = FreeListTsnLeafView;

    open spec fn view(&self) -> FreeListTsnLeafView {
        FreeListTsnLeafView { page_ids: u64s_of_page_ids(self.page_ids@) }
    }
}

impl FreeListTsnLeafView {
    /// The page-id count must fit the 16-bit prefix.
    pub open spec fn wf(self) -> bool {
        self.page_ids.len() <= 0xFFFF
    }

    /// Size of the byte image.
    pub open spec fn size(self) -> int {
        2 + 8 * self.page_ids.len() as int
    }

    /// Byte image: `u16 page_ids_len`, then the page ids.
    pub open spec fn enc(self) -> Seq<u8> {
        enc_counted_u64s(self.page_ids)
    }
}

/// Decode a TSN subtree leaf; anything after the counted list is ignored.
pub open spec fn parse_fl_tsn_leaf(b: Seq<u8>) -> Option<FreeListTsnLeafView> {
    match parse_counted_u64s(b) {
        None => None,
        Some((page_ids, _r)) => Some(FreeListTsnLeafView { page_ids }),
    }
}

/// Round trip: decoding the byte image of a well-formed TSN subtree leaf
/// yields that leaf, and the image is exactly `size()` bytes.
pub proof fn lemma_fl_tsn_leaf_roundtrip(m: FreeListTsnLeafView)
    requires
        m.wf(),
    ensures
        m.enc().len() == m.size(),
        parse_fl_tsn_leaf(m.enc()) == Some(m),
{
    lemma_parse_counted_u64s_enc(m.page_ids, Seq::empty());
    assert(m.enc() + Seq::<u8>::empty() =~= m.enc());
}

/// Truncation: removing trailing bytes from the image of a well-formed TSN
/// subtree leaf makes decoding fail.
pub proof fn lemma_fl_tsn_leaf_truncation(m: FreeListTsnLeafView, t: int)
    requires
        m.wf(),
        0 <= t < m.enc().len(),
    ensures
        parse_fl_tsn_leaf(m.enc().take(t)) is None,
{
    lemma_parse_counted_u64s_trunc(m.page_ids, t);
}

impl FreeListTsnLeafNode {
    /// Exact size of the byte image: two bytes of count plus eight bytes per
    /// page id.
    pub fn calc_serialized_size(&self) -> (r: usize)
        requires
            self@.size() <= usize::MAX,
        ensures
            r == self@.size(),
            self@.wf() ==> r == self@.enc().len(),
    {
        proof {
            if self@.wf() {
                lemma_fl_tsn_leaf_roundtrip(self@);
            }
        }
        2 + self.page_ids.len() * 8
    }

    /// Write the byte image into the front of `buf`; returns the number of
    /// bytes written, which equals `calc_serialized_size`.
    pub fn serialize_into(&self, buf: &mut Vec<u8>) -> (r: usize)
        requires
            self@.wf(),
            self@.size() <= usize::MAX,
            self@.enc().len() <= old(buf)@.len(),
        ensures
            r == self@.enc().len(),
            final(buf)@ == self@.enc() + old(buf)@.skip(r as int),
            final(buf)@.len() == old(buf)@.len(),
    {
        proof {
            lemma_fl_tsn_leaf_roundtrip(self@);
        }
        let mut out: Vec<u8> = Vec::new();
        let pvals = page_ids_to_u64s(&self.page_ids);
        push_counted_u64s(&mut out, &pvals);
        proof {
            assert(out@ =~= self@.enc());
        }
        overwrite_prefix(buf, out.as_slice());
        out.len()
    }

    /// Decode a buffer produced by `serialize_into`. Fails with a
    /// deserialization error exactly when the buffer cannot hold the count
    /// or the counted page ids.
    pub fn from_slice(slice: &[u8]) -> (r: DbResult<Self>)
        ensures
            match r {
                Ok(node) => parse_fl_tsn_leaf(slice@) == Some(node@) && node@.wf(),
                Err(e) => parse_fl_tsn_leaf(slice@) is None && e is DeserializationError,
            },
    {
        proof {
            assert(slice@.skip(0) =~= slice@);
        }
        let (pvals, _end) = match read_counted_u64s(slice, 0) {
            Ok(ok) => ok,
            Err(e) => {
                return Err(e);
            },
        };
        let page_ids = u64s_to_page_ids(&pvals);
        let node = FreeListTsnLeafNode { page_ids };
        proof {
            assert(parse_fl_tsn_leaf(slice@) == Some(node@));
        }
        Ok(node)
    }

    /// Whether one more page id would still fit a node budget of
    /// `max_node_size` bytes.
    pub fn would_fit_new_page_id(&self, max_node_size: usize) -> (r: bool)
        requires
            self@.size() + 8 <= usize::MAX,
        ensures
            r == (self@.size() + 8 <= max_node_size),
    {
        self.calc_serialized_size() + 8 <= max_node_size
    }
}

// ---------------------------------------------------------------------------
// Two-list internal layout shared by the free-list tree and the TSN subtree
// ---------------------------------------------------------------------------
/// Byte image of an internal node that encodes its child count explicitly:
/// a counted key list followed by a counted child list. This differs from
/// the event tree's internal layout, which derives the child count.
pub open spec fn enc_two_counted(keys: Seq<u64>, child_ids: Seq<u64>) -> Seq<u8> {
    enc_counted_u64s(keys) + enc_counted_u64s(child_ids)
}

/// Decode two consecutive counted lists.
pub open spec fn parse_two_counted(b: Seq<u8>) -> Option<(Seq<u64>, Seq<u64>)> {
    match parse_counted_u64s(b) {
        None => None,
        Some((keys, r1)) => match parse_counted_u64s(r1) {
            None => None,
            Some((child_ids, _r2)) => Some((keys, child_ids)),
        },
    }
}

/// Round trip for the two-list layout, and its exact size.
pub proof fn lemma_two_counted_roundtrip(keys: Seq<u64>, child_ids: Seq<u64>)
    requires
        keys.len() <= 0xFFFF,
        child_ids.len() <= 0xFFFF,
    ensures
        enc_two_counted(keys, child_ids).len() == 4 + 8 * keys.len() + 8 * child_ids.len(),
        parse_two_counted(enc_two_counted(keys, child_ids)) == Some((keys, child_ids)),
{
    lemma_parse_counted_u64s_enc(keys, enc_counted_u64s(child_ids));
    lemma_parse_counted_u64s_enc(child_ids, Seq::empty());
    assert(enc_counted_u64s(child_ids) + Seq::<u8>::empty() =~= enc_counted_u64s(child_ids));
}

/// Truncation failure for the two-list layout.
pub proof fn lemma_two_counted_truncation(keys: Seq<u64>, child_ids: Seq<u64>, t: int)
    requires
        keys.len() <= 0xFFFF,
        child_ids.len() <= 0xFFFF,
        0 <= t < enc_two_counted(keys, child_ids).len(),
    ensures
        parse_two_counted(enc_two_counted(keys, child_ids).take(t)) is None,
{
    let first = enc_counted_u64s(keys);
    let second = enc_counted_u64s(child_ids);
    let b = enc_two_counted(keys, child_ids).take(t);
    lemma_parse_counted_u64s_enc(keys, second);
    lemma_parse_counted_u64s_enc(child_ids, Seq::empty());
    if t < first.len() {
        assert(b =~= first.take(t));
        lemma_parse_counted_u64s_trunc(keys, t);
    } else {
        let second_trunc = second.take(t - first.len());
        assert(b =~= first + second_trunc);
        lemma_parse_counted_u64s_enc(keys, second_trunc);
        lemma_parse_counted_u64s_trunc(child_ids, t - first.len());
    }
}

/// Read the two-list layout starting at the front of `slice`.
fn read_two_counted(slice: &[u8]) -> (r: Result<(Vec<u64>, Vec<u64>), DbError>)
    ensures
        match r {
            Ok((keys, child_ids)) => parse_two_counted(slice@) == Some((keys@, child_ids@))
                && keys@.len() <= 0xFFFF && child_ids@.len() <= 0xFFFF,
            Err(e) => parse_two_counted(slice@) is None && e is DeserializationError,
        },
{
    proof {
        assert(slice@.skip(0) =~= slice@);
    }
    let (keys, end1) = match read_counted_u64s(slice, 0) {
        Ok(ok) => ok,
        Err(e) => {
            return Err(e);
        },
    };
    let (child_ids, _end2) = match read_counted_u64s(slice, end1) {
        Ok(ok) => ok,
        Err(e) => {
            return Err(e);
        },
    };
    Ok((keys, child_ids))
}

// ---------------------------------------------------------------------------
// Free-list internal node
// ---------------------------------------------------------------------------
/// Internal node of the free-list tree: TSN keys and child pages, with the
/// child count explicitly encoded.
#[derive(Debug, Clone, PartialEq, Eq)]
pub struct FreeListInternalNode {
    pub keys: Vec<Tsn>,
    pub child_ids: Vec<PageID>,
}

/// Mathematical image of a [`FreeListInternalNode`].
pub ghost struct FreeListInternalView {
    pub keys: Seq<u64>,
    pub child_ids: Seq<u64>,
}

impl View for FreeListInternalNode {
    type V = FreeListInternalView;

    open spec fn view(&self) -> FreeListInternalView {
        FreeListInternalView {
            keys: u64s_of_tsns(self.keys@),
            child_ids: u64s_of_page_ids(self.child_ids@),
        }
    }
}

impl FreeListInternalView {
    /// Both counts must fit their 16-bit prefixes.
    pub open spec fn wf(self) -> bool {
        self.keys.len() <= 0xFFFF && self.child_ids.len() <= 0xFFFF
    }

    /// Size of the byte image.
    pub open spec fn size(self) -> int {
        4 + 8 * self.keys.len() as int + 8 * self.child_ids.len() as int
    }

    /// Byte image: counted TSN keys, then counted child ids.
    pub open spec fn enc(self) -> Seq<u8> {
        enc_two_counted(self.keys, self.child_ids)
    }
}

/// Decode a free-list internal node; anything after the two counted lists
/// is ignored.
pub open spec fn parse_fl_internal(b: Seq<u8>) -> Option<FreeListInternalView> {
    match parse_two_counted(b) {
        None => None,
        Some((keys, child_ids)) => Some(FreeListInternalView { keys, child_ids }),
    }
}

/// Round trip: decoding the byte image of a well-formed free-list internal
/// node yields that node.
pub proof fn lemma_fl_internal_roundtrip(m: FreeListInternalView)
    requires
        m.wf(),
    ensures
        m.enc().len() == m.size(),
        parse_fl_internal(m.enc()) == Some(m),
{
    lemma_two_counted_roundtrip(m.keys, m.child_ids);
}

/// Truncation: removing trailing bytes from the image of a well-formed
/// free-list internal node makes decoding fail.
pub proof fn lemma_fl_internal_truncation(m: FreeListInternalView, t: int)
    requires
        m.wf(),
        0 <= t < m.enc().len(),
    ensures
        parse_fl_internal(m.enc().take(t)) is None,
{
    lemma_two_counted_truncation(m.keys, m.child_ids, t);
}

impl FreeListInternalNode {
    /// Exact size of the byte image: two counted lists of eight-byte values.
    pub fn calc_serialized_size(&self) -> (r: usize)
        requires
            self@.size() <= usize::MAX,
        ensures
            r == self@.size(),
            self@.wf() ==> r == self@.enc().len(),
    {
        proof {
            if self@.wf() {
                lemma_fl_internal_roundtrip(self@);
            }
        }
        2 + self.keys.len() * 8 + 2 + self.child_ids.len() * 8
    }

    /// Write the byte image into the front of `buf`; returns the number of
    /// bytes written, which equals `calc_serialized_size`.
    pub fn serialize_into(&self, buf: &mut Vec<u8>) -> (r: usize)
        requires
            self@.wf(),
            self@.size() <= usize::MAX,
            self@.enc().len() <= old(buf)@.len(),
        ensures
            r == self@.enc().len(),
            final(buf)@ == self@.enc() + old(buf)@.skip(r as int),
            final(buf)@.len() == old(buf)@.len(),
    {
        proof {
            lemma_fl_internal_roundtrip(self@);
        }
        let mut out: Vec<u8> = Vec::new();
        let kvals = tsns_to_u64s(&self.keys);
        push_counted_u64s(&mut out, &kvals);
        let cvals = page_ids_to_u64s(&self.child_ids);
        push_counted_u64s(&mut out, &cvals);
        proof {
            assert(out@ =~= self@.enc());
        }
        overwrite_prefix(buf, out.as_slice());
        out.len()
    }

    /// Decode a buffer produced by `serialize_into`. Fails with a
    /// deserialization error exactly when either counted list is truncated.
    pub fn from_slice(slice: &[u8]) -> (r: DbResult<Self>)
        ensures
            match r {
                Ok(node) => parse_fl_internal(slice@) == Some(node@) && node@.wf(),
                Err(e) => parse_fl_internal(slice@) is None && e is DeserializationError,
            },
    {
        let (kvals, cvals) = match read_two_counted(slice) {
            Ok(ok) => ok,
            Err(e) => {
                return Err(e);
            },
        };
        let keys = u64s_to_tsns(&kvals);
        let child_ids = u64s_to_page_ids(&cvals);
        let node = FreeListInternalNode { keys, child_ids };
        proof {
            assert(parse_fl_internal(slice@) == Some(node@));
        }
        Ok(node)
    }

    /// Swap the last child pointer from `old_id` to `new_id`; reports
    /// corruption (leaving the node unchanged) when the last child is not
    /// `old_id`.
    pub fn replace_last_child_id(&mut self, old_id: PageID, new_id: PageID) -> (r: DbResult<()>)
        requires
            old(self).child_ids@.len() > 0,
        ensures
            final(self)@.keys == old(self)@.keys,
            old(self)@.child_ids.last() == old_id.0 ==> r == Ok::<(), DbError>(())
                && final(self)@.child_ids == old(self)@.child_ids.update(
                old(self)@.child_ids.len() - 1,
                new_id.0,
            ),
            old(self)@.child_ids.last() != old_id.0 ==> (r matches Err(e) && e is DatabaseCorrupted
                && final(self)@.child_ids == old(self)@.child_ids),
    {
        let last_idx = self.child_ids.len() - 1;
        if self.child_ids[last_idx] == old_id {
            self.child_ids.set(last_idx, new_id);
            proof {
                assert(self@.child_ids =~= old(self)@.child_ids.update(
                    old(self)@.child_ids.len() - 1,
                    new_id.0,
                ));
            }
            Ok(())
        } else {
            Err(DbError::DatabaseCorrupted("child id mismatch"))
        }
    }

    /// Append a promoted key together with the page id of the new right
    /// sibling it points at.
    pub fn append_promoted_key_and_page_id(
        &mut self,
        promoted_key: Tsn,
        promoted_page_id: PageID,
    ) -> (r: DbResult<()>)
        ensures
            r == Ok::<(), DbError>(()),
            final(self)@.keys == old(self)@.keys.push(promoted_key.0),
            final(self)@.child_ids == old(self)@.child_ids.push(promoted_page_id.0),
    {
        self.keys.push(promoted_key);
        self.child_ids.push(promoted_page_id);
        proof {
            assert(self@.keys =~= old(self)@.keys.push(promoted_key.0));
            assert(self@.child_ids =~= old(self)@.child_ids.push(promoted_page_id.0));
        }
        Ok(())
    }

    /// Off-center split: the key at `len - 2` is promoted, the tail from
    /// that index onward moves to a new right sibling.
    pub(crate) fn split_off(&mut self) -> (r: DbResult<(Tsn, Vec<Tsn>, Vec<PageID>)>)
        requires
            old(self).keys@.len() >= 2,
            old(self).child_ids@.len() >= old(self).keys@.len() - 1,
        ensures
            r matches Ok((promoted, new_keys, new_child_ids)) && {
                let mid = old(self)@.keys.len() - 2;
                &&& promoted.0 == old(self)@.keys[mid]
                &&& final(self)@.keys == old(self)@.keys.take(mid)
                &&& u64s_of_tsns(new_keys@) == old(self)@.keys.skip(mid + 1)
                &&& final(self)@.child_ids == old(self)@.child_ids.take(mid + 1)
                &&& u64s_of_page_ids(new_child_ids@) == old(self)@.child_ids.skip(mid + 1)
            },
    {
        let middle_idx = self.keys.len() - 2;
        let promoted_key = self.keys.remove(middle_idx);
        let new_keys = self.keys.split_off(middle_idx);
        let new_child_ids = self.child_ids.split_off(middle_idx + 1);
        proof {
            let mid = middle_idx as int;
            assert(self@.keys =~= old(self)@.keys.take(mid));
            assert(u64s_of_tsns(new_keys@) =~= old(self)@.keys.skip(mid + 1));
            assert(self@.child_ids =~= old(self)@.child_ids.take(mid + 1));
            assert(u64s_of_page_ids(new_child_ids@) =~= old(self)@.child_ids.skip(mid + 1));
        }
        Ok((promoted_key, new_keys, new_child_ids))
    }
}

// ---------------------------------------------------------------------------
// TSN subtree internal node
// ---------------------------------------------------------------------------
/// Internal node of the nested per-TSN subtree, keyed by page id; same
/// explicit two-list layout as the free-list internal node.
#[derive(Debug, Clone, PartialEq, Eq)]
pub struct FreeListTsnInternalNode {
    pub keys: Vec<PageID>,
    pub child_ids: Vec<PageID>,
}

/// Mathematical image of a [`FreeListTsnInternalNode`].
pub ghost struct FreeListTsnInternalView {
    pub keys: Seq<u64>,
    pub child_ids: Seq<u64>,
}

impl View for FreeListTsnInternalNode {
    type V = FreeListTsnInternalView;

    open spec fn view(&self) -> FreeListTsnInternalView {
        FreeListTsnInternalView {
            keys: u64s_of_page_ids(self.keys@),
            child_ids: u64s_of_page_ids(self.child_ids@),
        }
    }
}

impl FreeListTsnInternalView {
    /// Both counts must fit their 16-bit prefixes.
    pub open spec fn wf(self) -> bool {
        self.keys.len() <= 0xFFFF && self.child_ids.len() <= 0xFFFF
    }

    /// Size of the byte image.
    pub open spec fn size(self) -> int {
        4 + 8 * self.keys.len() as int + 8 * self.child_ids.len() as int
    }

    /// Byte image: counted page-id keys, then counted child ids.
    pub open spec fn enc(self) -> Seq<u8> {
        enc_two_counted(self.keys, self.child_ids)
    }
}

/// Decode a TSN subtree internal node; anything after the two counted lists
/// is ignored.
pub open spec fn parse_fl_tsn_internal(b: Seq<u8>) -> Option<FreeListTsnInternalView> {
    match parse_two_counted(b) {
        None => None,
        Some((keys, child_ids)) => Some(FreeListTsnInternalView { keys, child_ids }),
    }
}

/// Round trip: decoding the byte image of a well-formed TSN subtree internal
/// node yields that node.
pub proof fn lemma_fl_tsn_internal_roundtrip(m: FreeListTsnInternalView)
    requires
        m.wf(),
    ensures
        m.enc().len() == m.size(),
        parse_fl_tsn_internal(m.enc()) == Some(m),
{
    lemma_two_counted_roundtrip(m.keys, m.child_ids);
}

/// Truncation: removing trailing bytes from the image of a well-formed TSN
/// subtree internal node makes decoding fail.
pub proof fn lemma_fl_tsn_internal_truncation(m: FreeListTsnInternalView, t: int)
    requires
        m.wf(),
        0 <= t < m.enc().len(),
    ensures
        parse_fl_tsn_internal(m.enc().take(t)) is None,
{
    lemma_two_counted_truncation(m.keys, m.child_ids, t);
}

impl FreeListTsnInternalNode {
    /// Exact size of the byte image: two counted lists of eight-byte values.
    pub fn calc_serialized_size(&self) -> (r: usize)
        requires
            self@.size() <= usize::MAX,
        ensures
            r == self@.size(),
            self@.wf() ==> r == self@.enc().len(),
    {
        proof {
            if self@.wf() {
                lemma_fl_tsn_internal_roundtrip(self@);
            }
        }
        2 + self.keys.len() * 8 + 2 + self.child_ids.len() * 8
    }

    /// Write the byte image into the front of `buf`; returns the number of
    /// bytes written, which equals `calc_serialized_size`.
    pub fn serialize_into(&self, buf: &mut Vec<u8>) -> (r: usize)
        requires
            self@.wf(),
            self@.size() <= usize::MAX,
            self@.enc().len() <= old(buf)@.len(),
        ensures
            r == self@.enc().len(),
            final(buf)@ == self@.enc() + old(buf)@.skip(r as int),
            final(buf)@.len() == old(buf)@.len(),
    {
        proof {
            lemma_fl_tsn_internal_roundtrip(self@);
        }
        let mut out: Vec<u8> = Vec::new();
        let kvals = page_ids_to_u64s(&self.keys);
        push_counted_u64s(&mut out, &kvals);
        let cvals = page_ids_to_u64s(&self.child_ids);
        push_counted_u64s(&mut out, &cvals);
        proof {
            assert(out@ =~= self@.enc());
        }
        overwrite_prefix(buf, out.as_slice());
        out.len()
    }

    /// Decode a buffer produced by `serialize_into`. Fails with a
    /// deserialization error exactly when either counted list is truncated.
    pub fn from_slice(slice: &[u8]) -> (r: DbResult<Self>)
        ensures
            match r {
                Ok(node) => parse_fl_tsn_internal(slice@) == Some(node@) && node@.wf(),
                Err(e) => parse_fl_tsn_internal(slice@) is None && e is DeserializationError,
            },
    {
        let (kvals, cvals) = match read_two_counted(slice) {
            Ok(ok) => ok,
            Err(e) => {
                return Err(e);
            },
        };
        let keys = u64s_to_page_ids(&kvals);
        let child_ids = u64s_to_page_ids(&cvals);
        let node = FreeListTsnInternalNode { keys, child_ids };
        proof {
            assert(parse_fl_tsn_internal(slice@) == Some(node@));
        }
        Ok(node)
    }

    /// Whether one more key and child pair would still fit a node budget of
    /// `max_node_size` bytes.
    pub fn would_fit_new_key_and_child(&self, max_node_size: usize) -> (r: bool)
        requires
            self@.size() + 16 <= usize::MAX,
        ensures
            r == (self@.size() + 16 <= max_node_size),
    {
        self.calc_serialized_size() + 16 <= max_node_size
    }
}

} // verus!
