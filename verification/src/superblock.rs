//! The superblock: page 0 of the database file, the single source of truth
//! for the most recent durable snapshot. Its fixed fields are, in order:
//! `u32 magic`, `u16 version`, `u32 page_size`, `u64 tsn`,
//! `u64 event_root_page_id`, `u64 free_root_page_id`, `u64 next_page_id`,
//! `u64 oldest_live_reader_tsn`, zero-padded to `page_size` bytes.

use crate::common::PageID;
use crate::common::Tsn;
use crate::errors::DbError;
use crate::errors::DbResult;
use crate::wire::enc_u16;
use crate::wire::enc_u32;
use crate::wire::enc_u64;
use crate::wire::lemma_parse_u16_enc;
use crate::wire::lemma_parse_u32_enc;
use crate::wire::lemma_parse_u64_enc;
use crate::wire::overwrite_prefix;
use crate::wire::parse_u16;
use crate::wire::parse_u32;
use crate::wire::parse_u64;
use crate::wire::push_u16;
use crate::wire::push_u32;
use crate::wire::push_u64;
use crate::wire::read_u16_at;
use crate::wire::read_u32_at;
use crate::wire::read_u64_at;
use vstd::prelude::*;

verus! {

/// "UMAD", the file-format magic number.
pub const SUPERBLOCK_MAGIC: u32 = 0x554D4144;

/// Current version of the on-disk format.
pub const SUPERBLOCK_VERSION: u16 = 1;

/// Bytes taken by the fixed fields before the zero padding.
pub const SUPERBLOCK_FIXED_SIZE: usize = 50;

/// The durable database header persisted as page 0. The magic and version
/// are fixed by the format and not carried in memory.
#[derive(Debug, Clone, Copy, PartialEq, Eq)]
pub struct Superblock {
    pub page_size: u32,
    pub tsn: Tsn,
    pub event_root: PageID,
    pub free_root: PageID,
    pub next_page_id: PageID,
    pub oldest_live_reader_tsn: Tsn,
}

/// Mathematical image of a [`Superblock`].
pub ghost struct SuperblockView {
    pub page_size: u32,
    pub tsn: u64,
    pub event_root: u64,
    pub free_root: u64,
    pub next_page_id: u64,
    pub oldest_live_reader_tsn: u64,
}

impl View for Superblock {
    type V = SuperblockView;

    open spec fn view(&self) -> SuperblockView {
        SuperblockView {
            page_size: self.page_size,
            tsn: self.tsn.0,
            event_root: self.event_root.0,
            free_root: self.free_root.0,
            next_page_id: self.next_page_id.0,
            oldest_live_reader_tsn: self.oldest_live_reader_tsn.0,
        }
    }
}

impl SuperblockView {
    /// The recorded page size must at least hold the fixed fields.
    pub open spec fn wf(self) -> bool {
        self.page_size >= SUPERBLOCK_FIXED_SIZE
    }

    /// Image of the fixed fields: magic, version, then the snapshot fields.
    pub open spec fn enc_fixed(self) -> Seq<u8> {
        enc_u32(SUPERBLOCK_MAGIC) + enc_u16(SUPERBLOCK_VERSION) + enc_u32(self.page_size) + enc_u64(
            self.tsn,
        ) + enc_u64(self.event_root) + enc_u64(self.free_root) + enc_u64(self.next_page_id)
            + enc_u64(self.oldest_live_reader_tsn)
    }

    /// The full page image: the fixed fields zero-padded to `page_size`.
    pub open spec fn enc_page(self) -> Seq<u8> {
        self.enc_fixed() + Seq::new((self.page_size - SUPERBLOCK_FIXED_SIZE) as nat, |i: int| 0u8)
    }
}

/// Decode a superblock. The magic and version must match exactly; anything
/// after the fixed fields (the padding) is ignored.
pub open spec fn parse_superblock(b: Seq<u8>) -> Option<SuperblockView> {
    match parse_u32(b) {
        None => None,
        Some((magic, r1)) => if magic != SUPERBLOCK_MAGIC {
            None
        } else {
            match parse_u16(r1) {
                None => None,
                Some((version, r2)) => if version != SUPERBLOCK_VERSION {
                    None
                } else {
                    match parse_u32(r2) {
                        None => None,
                        Some((page_size, r3)) => match parse_u64(r3) {
                            None => None,
                            Some((tsn, r4)) => match parse_u64(r4) {
                                None => None,
                                Some((event_root, r5)) => match parse_u64(r5) {
                                    None => None,
                                    Some((free_root, r6)) => match parse_u64(r6) {
                                        None => None,
                                        Some((next_page_id, r7)) => match parse_u64(r7) {
                                            None => None,
                                            Some((oldest_live_reader_tsn, _r8)) => Some(
                                                SuperblockView {
                                                    page_size,
                                                    tsn,
                                                    event_root,
                                                    free_root,
                                                    next_page_id,
                                                    oldest_live_reader_tsn,
                                                },
                                            ),
                                        },
                                    },
                                },
                            },
                        },
                    }
                },
            }
        },
    }
}

/// The fixed fields and the padded page have their stated sizes, and the
/// padded page decodes back to the superblock written.
pub proof fn lemma_superblock_roundtrip(m: SuperblockView)
    requires
        m.wf(),
    ensures
        m.enc_fixed().len() == SUPERBLOCK_FIXED_SIZE,
        m.enc_page().len() == m.page_size,
        parse_superblock(m.enc_page()) == Some(m),
{
    let pad = Seq::new((m.page_size - SUPERBLOCK_FIXED_SIZE) as nat, |i: int| 0u8);
    let r7 = enc_u64(m.oldest_live_reader_tsn) + pad;
    let r6 = enc_u64(m.next_page_id) + r7;
    let r5 = enc_u64(m.free_root) + r6;
    let r4 = enc_u64(m.event_root) + r5;
    let r3 = enc_u64(m.tsn) + r4;
    let r2 = enc_u32(m.page_size) + r3;
    let r1 = enc_u16(SUPERBLOCK_VERSION) + r2;
    assert(m.enc_page() =~= enc_u32(SUPERBLOCK_MAGIC) + r1);
    lemma_parse_u32_enc(SUPERBLOCK_MAGIC, r1);
    lemma_parse_u16_enc(SUPERBLOCK_VERSION, r2);
    lemma_parse_u32_enc(m.page_size, r3);
    lemma_parse_u64_enc(m.tsn, r4);
    lemma_parse_u64_enc(m.event_root, r5);
    lemma_parse_u64_enc(m.free_root, r6);
    lemma_parse_u64_enc(m.next_page_id, r7);
    lemma_parse_u64_enc(m.oldest_live_reader_tsn, pad);
}

/// Truncating the fixed fields of a superblock image makes decoding fail;
/// only the zero padding may be cut.
pub proof fn lemma_superblock_truncation(m: SuperblockView, t: int)
    requires
        m.wf(),
        0 <= t < SUPERBLOCK_FIXED_SIZE,
    ensures
        parse_superblock(m.enc_page().take(t)) is None,
{
    lemma_superblock_roundtrip(m);
    let b = m.enc_page().take(t);
    lemma_parse_u32_enc(SUPERBLOCK_MAGIC, Seq::empty());
    lemma_parse_u16_enc(SUPERBLOCK_VERSION, Seq::empty());
    lemma_parse_u32_enc(m.page_size, Seq::empty());
    if t < 4 {
    } else {
        assert(b.take(4) =~= enc_u32(SUPERBLOCK_MAGIC));
        assert(parse_u32(b) == Some((SUPERBLOCK_MAGIC, b.skip(4))));
        if t - 4 < 2 {
        } else {
            assert(b.skip(4).take(2) =~= enc_u16(SUPERBLOCK_VERSION));
            assert(parse_u16(b.skip(4)) == Some((SUPERBLOCK_VERSION, b.skip(4).skip(2))));
            if t - 6 < 4 {
            } else {
                assert(b.skip(4).skip(2).take(4) =~= enc_u32(m.page_size));
                assert(parse_u32(b.skip(4).skip(2)) == Some(
                    (m.page_size, b.skip(4).skip(2).skip(4)),
                ));
                assert(b.skip(4).skip(2).skip(4).len() == t - 10);
                assert(t - 10 < 40);
            }
        }
    }
}

impl Superblock {
    /// Write the padded page image into the front of `buf`; returns the
    /// number of bytes written, which equals the recorded page size.
    pub fn serialize_into(&self, buf: &mut Vec<u8>) -> (r: usize)
        requires
            self@.wf(),
            self@.page_size <= old(buf)@.len(),
        ensures
            r == self@.page_size,
            final(buf)@ == self@.enc_page() + old(buf)@.skip(r as int),
            final(buf)@.len() == old(buf)@.len(),
    {
        proof {
            lemma_superblock_roundtrip(self@);
        }
        let mut out: Vec<u8> = Vec::new();
        push_u32(&mut out, SUPERBLOCK_MAGIC);
        push_u16(&mut out, SUPERBLOCK_VERSION);
        push_u32(&mut out, self.page_size);
        push_u64(&mut out, self.tsn.0);
        push_u64(&mut out, self.event_root.0);
        push_u64(&mut out, self.free_root.0);
        push_u64(&mut out, self.next_page_id.0);
        push_u64(&mut out, self.oldest_live_reader_tsn.0);
        proof {
            assert(out@ =~= self@.enc_fixed());
        }
        let page_size = self.page_size as usize;
        while out.len() < page_size
            invariant
                self@.enc_fixed().len() <= out@.len() <= page_size,
                page_size == self@.page_size,
                out@ =~= self@.enc_fixed() + Seq::new(
                    (out@.len() - self@.enc_fixed().len()) as nat,
                    |i: int| 0u8,
                ),
            decreases page_size - out.len(),
        {
            out.push(0u8);
            proof {
                assert(out@ =~= self@.enc_fixed() + Seq::new(
                    (out@.len() - self@.enc_fixed().len()) as nat,
                    |i: int| 0u8,
                ));
            }
        }
        proof {
            assert(out@ =~= self@.enc_page());
        }
        overwrite_prefix(buf, out.as_slice());
        out.len()
    }

    /// Decode page 0 of a database file. Fails with a deserialization error
    /// exactly when the fixed fields are truncated, the magic is not this
    /// format's, or the version is unknown.
    pub fn from_slice(slice: &[u8]) -> (r: DbResult<Self>)
        ensures
            match r {
                Ok(sb) => parse_superblock(slice@) == Some(sb@),
                Err(e) => parse_superblock(slice@) is None && e is DeserializationError,
            },
    {
        let slice_len = slice.len();
        if slice_len < 50 {
            proof {
                if slice_len >= 4 {
                    assert(slice@.take(4) =~= slice@.subrange(0, 4));
                }
                if slice_len >= 6 {
                    assert(slice@.skip(4).take(2) =~= slice@.subrange(4, 6));
                    assert(slice@.skip(4).skip(2) =~= slice@.skip(6));
                }
                if slice_len >= 10 {
                    assert(slice@.skip(6).take(4) =~= slice@.subrange(6, 10));
                    assert(slice@.skip(6).skip(4) =~= slice@.skip(10));
                }
                if slice_len >= 18 {
                    assert(slice@.skip(10).take(8) =~= slice@.subrange(10, 18));
                    assert(slice@.skip(10).skip(8) =~= slice@.skip(18));
                }
                if slice_len >= 26 {
                    assert(slice@.skip(18).take(8) =~= slice@.subrange(18, 26));
                    assert(slice@.skip(18).skip(8) =~= slice@.skip(26));
                }
                if slice_len >= 34 {
                    assert(slice@.skip(26).take(8) =~= slice@.subrange(26, 34));
                    assert(slice@.skip(26).skip(8) =~= slice@.skip(34));
                }
                if slice_len >= 42 {
                    assert(slice@.skip(34).take(8) =~= slice@.subrange(34, 42));
                    assert(slice@.skip(34).skip(8) =~= slice@.skip(42));
                }
            }
            return Err(DbError::DeserializationError("superblock: truncated header"));
        }
        let magic = read_u32_at(slice, 0);
        proof {
            assert(slice@.take(4) =~= slice@.subrange(0, 4));
            assert(slice@.skip(4) =~= slice@.subrange(4, slice_len as int));
        }
        if magic != 0x554D4144u32 {
            return Err(DbError::DeserializationError("superblock: wrong magic"));
        }
        let version = read_u16_at(slice, 4);
        proof {
            assert(slice@.skip(4).take(2) =~= slice@.subrange(4, 6));
            assert(slice@.skip(4).skip(2) =~= slice@.skip(6));
        }
        if version != 1u16 {
            return Err(DbError::DeserializationError("superblock: unknown version"));
        }
        let page_size = read_u32_at(slice, 6);
        let tsn = read_u64_at(slice, 10);
        let event_root = read_u64_at(slice, 18);
        let free_root = read_u64_at(slice, 26);
        let next_page_id = read_u64_at(slice, 34);
        let oldest = read_u64_at(slice, 42);
        let sb = Superblock {
            page_size,
            tsn: Tsn(tsn),
            event_root: PageID(event_root),
            free_root: PageID(free_root),
            next_page_id: PageID(next_page_id),
            oldest_live_reader_tsn: Tsn(oldest),
        };
        proof {
            assert(slice@.skip(6).take(4) =~= slice@.subrange(6, 10));
            assert(slice@.skip(6).skip(4) =~= slice@.skip(10));
            assert(slice@.skip(10).take(8) =~= slice@.subrange(10, 18));
            assert(slice@.skip(10).skip(8) =~= slice@.skip(18));
            assert(slice@.skip(18).take(8) =~= slice@.subrange(18, 26));
            assert(slice@.skip(18).skip(8) =~= slice@.skip(26));
            assert(slice@.skip(26).take(8) =~= slice@.subrange(26, 34));
            assert(slice@.skip(26).skip(8) =~= slice@.skip(34));
            assert(slice@.skip(34).take(8) =~= slice@.subrange(34, 42));
            assert(slice@.skip(34).skip(8) =~= slice@.skip(42));
            assert(slice@.skip(42).take(8) =~= slice@.subrange(42, 50));
            assert(parse_superblock(slice@) == Some(sb@));
        }
        Ok(sb)
    }
}

} // verus!
