//! Little-endian wire primitives shared by every node codec.
//!
//! All multi-byte integers on disk are little-endian; length prefixes are
//! 16-bit. Specification-level encoders build the byte image of a value;
//! parsers consume a prefix of a byte sequence and return the decoded value
//! together with the remaining suffix, or `None` when the input is too short.

use crate::errors::DbError;
use vstd::bytes::*;
use vstd::prelude::*;
use vstd::slice::*;
use vstd::utf8::decode_utf8;
use vstd::utf8::encode_utf8;
use vstd::utf8::encode_utf8_decode_utf8;
use vstd::utf8::encode_utf8_valid_utf8;
use vstd::utf8::valid_utf8;

verus! {

// ---------------------------------------------------------------------------
// Specification-level encoders
// ---------------------------------------------------------------------------
/// Two-byte little-endian image of a `u16`.
pub open spec fn enc_u16(x: u16) -> Seq<u8> {
    spec_u16_to_le_bytes(x)
}

/// Four-byte little-endian image of a `u32`.
pub open spec fn enc_u32(x: u32) -> Seq<u8> {
    spec_u32_to_le_bytes(x)
}

/// Eight-byte little-endian image of a `u64`.
pub open spec fn enc_u64(x: u64) -> Seq<u8> {
    spec_u64_to_le_bytes(x)
}

/// Concatenated little-endian images of a sequence of `u64`s.
pub open spec fn enc_u64_seq(s: Seq<u64>) -> Seq<u8>
    decreases s.len(),
{
    if s.len() == 0 {
        Seq::empty()
    } else {
        enc_u64(s[0]) + enc_u64_seq(s.drop_first())
    }
}

// ---------------------------------------------------------------------------
// Specification-level parsers
// ---------------------------------------------------------------------------
/// Read a `u16` from the front of `b`; the rest of `b` is returned unread.
pub open spec fn parse_u16(b: Seq<u8>) -> Option<(u16, Seq<u8>)> {
    if b.len() >= 2 {
        Some((spec_u16_from_le_bytes(b.take(2)), b.skip(2)))
    } else {
        None
    }
}

/// Read a `u32` from the front of `b`.
pub open spec fn parse_u32(b: Seq<u8>) -> Option<(u32, Seq<u8>)> {
    if b.len() >= 4 {
        Some((spec_u32_from_le_bytes(b.take(4)), b.skip(4)))
    } else {
        None
    }
}

/// Read a `u64` from the front of `b`.
pub open spec fn parse_u64(b: Seq<u8>) -> Option<(u64, Seq<u8>)> {
    if b.len() >= 8 {
        Some((spec_u64_from_le_bytes(b.take(8)), b.skip(8)))
    } else {
        None
    }
}

/// Read a single byte from the front of `b`.
pub open spec fn parse_u8(b: Seq<u8>) -> Option<(u8, Seq<u8>)> {
    if b.len() >= 1 {
        Some((b[0], b.skip(1)))
    } else {
        None
    }
}

/// Read `n` raw bytes from the front of `b`.
pub open spec fn parse_bytes(b: Seq<u8>, n: nat) -> Option<(Seq<u8>, Seq<u8>)> {
    if b.len() >= n {
        Some((b.take(n as int), b.skip(n as int)))
    } else {
        None
    }
}

/// Read `n` consecutive `u64`s from the front of `b`.
pub open spec fn parse_u64_seq(b: Seq<u8>, n: nat) -> Option<(Seq<u64>, Seq<u8>)>
    decreases n,
{
    if n == 0 {
        Some((Seq::empty(), b))
    } else {
        match parse_u64(b) {
            None => None,
            Some((x, rest)) => match parse_u64_seq(rest, (n - 1) as nat) {
                None => None,
                Some((xs, tail)) => Some((seq![x] + xs, tail)),
            },
        }
    }
}

// ---------------------------------------------------------------------------
// Generic length-prefixed lists of variable-size elements
// ---------------------------------------------------------------------------
/// Concatenated images of the elements of `s`, each encoded by `one`.
pub open spec fn enc_list<V>(s: Seq<V>, one: spec_fn(V) -> Seq<u8>) -> Seq<u8>
    decreases s.len(),
{
    if s.len() == 0 {
        Seq::empty()
    } else {
        one(s[0]) + enc_list(s.drop_first(), one)
    }
}

/// Read `n` consecutive elements from the front of `b`, each decoded by `one`.
pub open spec fn parse_list<V>(
    b: Seq<u8>,
    n: nat,
    one: spec_fn(Seq<u8>) -> Option<(V, Seq<u8>)>,
) -> Option<(Seq<V>, Seq<u8>)>
    decreases n,
{
    if n == 0 {
        Some((Seq::empty(), b))
    } else {
        match one(b) {
            None => None,
            Some((v, rest)) => match parse_list(rest, (n - 1) as nat, one) {
                None => None,
                Some((vs, tail)) => Some((seq![v] + vs, tail)),
            },
        }
    }
}

/// Sum of the sizes assigned to the elements of `s` by `size_one`.
pub open spec fn sum_list<V>(s: Seq<V>, size_one: spec_fn(V) -> int) -> int
    decreases s.len(),
{
    if s.len() == 0 {
        0
    } else {
        size_one(s[0]) + sum_list(s.drop_first(), size_one)
    }
}

/// A sum of nonnegative element sizes is nonnegative.
pub proof fn lemma_sum_list_nonneg<V>(s: Seq<V>, size_one: spec_fn(V) -> int)
    requires
        forall|i: int| 0 <= i < s.len() ==> size_one(#[trigger] s[i]) >= 0,
    ensures
        sum_list(s, size_one) >= 0,
    decreases s.len(),
{
    if s.len() > 0 {
        assert(forall|i: int|
            0 <= i < s.drop_first().len() ==> size_one(#[trigger] s.drop_first()[i]) >= 0);
        lemma_sum_list_nonneg(s.drop_first(), size_one);
    }
}

/// The sum over a list splits around any index.
pub proof fn lemma_sum_list_split<V>(s: Seq<V>, i: int, size_one: spec_fn(V) -> int)
    requires
        0 <= i <= s.len(),
    ensures
        sum_list(s, size_one) == sum_list(s.take(i), size_one) + sum_list(s.skip(i), size_one),
    decreases i,
{
    if i == 0 {
        assert(s.take(0) =~= Seq::<V>::empty());
        assert(s.skip(0) =~= s);
    } else {
        lemma_sum_list_split(s.drop_first(), i - 1, size_one);
        assert(s.take(i)[0] == s[0]);
        assert(s.take(i).drop_first() =~= s.drop_first().take(i - 1));
        assert(s.skip(i) =~= s.drop_first().skip(i - 1));
    }
}

/// Appending one element to a list adds its size to the sum.
pub proof fn lemma_sum_list_push<V>(s: Seq<V>, x: V, size_one: spec_fn(V) -> int)
    ensures
        sum_list(s.push(x), size_one) == sum_list(s, size_one) + size_one(x),
{
    lemma_sum_list_split(s.push(x), s.len() as int, size_one);
    assert(s.push(x).take(s.len() as int) =~= s);
    let tail = s.push(x).skip(s.len() as int);
    assert(tail[0] == x);
    assert(tail.drop_first() =~= Seq::<V>::empty());
    assert(sum_list(tail, size_one) == size_one(x) + sum_list(Seq::<V>::empty(), size_one));
}

/// Appending one element to a list appends its image to the list encoding.
pub proof fn lemma_enc_list_push<V>(s: Seq<V>, x: V, one: spec_fn(V) -> Seq<u8>)
    ensures
        enc_list(s.push(x), one) == enc_list(s, one) + one(x),
    decreases s.len(),
{
    if s.len() == 0 {
        assert(s.push(x).drop_first() =~= Seq::<V>::empty());
        assert(s =~= Seq::<V>::empty());
        assert(enc_list(Seq::<V>::empty(), one) == Seq::<u8>::empty());
        assert(enc_list(s.push(x), one) == one(x) + enc_list(Seq::<V>::empty(), one));
        assert(enc_list(s.push(x), one) =~= enc_list(s, one) + one(x));
    } else {
        assert(s.push(x)[0] == s[0]);
        assert(s.push(x).drop_first() =~= s.drop_first().push(x));
        lemma_enc_list_push(s.drop_first(), x, one);
        assert(enc_list(s.push(x), one) == one(s[0]) + (enc_list(s.drop_first(), one) + one(x)));
        assert(enc_list(s.push(x), one) =~= enc_list(s, one) + one(x));
    }
}

/// If the parser inverts the encoder of every valid element in front of any
/// suffix, parsing the encoding of a list of valid elements (with anything
/// after it) returns exactly the encoded elements and leaves the suffix
/// unread.
pub proof fn lemma_parse_list_enc<V>(
    s: Seq<V>,
    rest: Seq<u8>,
    enc_one: spec_fn(V) -> Seq<u8>,
    parse_one: spec_fn(Seq<u8>) -> Option<(V, Seq<u8>)>,
    valid: spec_fn(V) -> bool,
)
    requires
        forall|i: int| 0 <= i < s.len() ==> valid(#[trigger] s[i]),
        forall|v: V, r: Seq<u8>|
            valid(v) ==> #[trigger] parse_one(enc_one(v) + r) == Some((v, r)),
    ensures
        parse_list(enc_list(s, enc_one) + rest, s.len() as nat, parse_one) == Some((s, rest)),
    decreases s.len(),
{
    if s.len() == 0 {
        assert(enc_list(s, enc_one) + rest =~= rest);
        assert(s =~= Seq::<V>::empty());
    } else {
        let tail_enc = enc_list(s.drop_first(), enc_one) + rest;
        assert(enc_list(s, enc_one) + rest =~= enc_one(s[0]) + tail_enc);
        assert(parse_one(enc_one(s[0]) + tail_enc) == Some((s[0], tail_enc)));
        assert(forall|i: int|
            0 <= i < s.drop_first().len() ==> valid(#[trigger] s.drop_first()[i]));
        lemma_parse_list_enc(s.drop_first(), rest, enc_one, parse_one, valid);
        assert(seq![s[0]] + s.drop_first() =~= s);
    }
}

/// Parsing `i + 1` elements extends a successful parse of `i` elements by
/// one more element read from the remainder.
pub proof fn lemma_parse_list_snoc<V>(
    b: Seq<u8>,
    i: nat,
    one: spec_fn(Seq<u8>) -> Option<(V, Seq<u8>)>,
    vs: Seq<V>,
    r: Seq<u8>,
    v: V,
    r2: Seq<u8>,
)
    requires
        parse_list(b, i, one) == Some((vs, r)),
        one(r) == Some((v, r2)),
    ensures
        parse_list(b, (i + 1) as nat, one) == Some((vs.push(v), r2)),
    decreases i,
{
    if i == 0 {
        assert(vs =~= Seq::<V>::empty());
        assert(r == b);
        assert(parse_list(b, 1, one) == Some((seq![v] + Seq::<V>::empty(), r2)));
        assert(seq![v] + Seq::<V>::empty() =~= vs.push(v));
    } else {
        let (v0, rest) = one(b).unwrap();
        let (vs1, _tail) = parse_list(rest, (i - 1) as nat, one).unwrap();
        assert(vs == seq![v0] + vs1);
        assert(vs1 == vs.drop_first());
        lemma_parse_list_snoc(rest, (i - 1) as nat, one, vs1, r, v, r2);
        assert(seq![v0] + vs1.push(v) =~= vs.push(v));
        assert(vs[0] == v0);
    }
}

/// A successful parse of `i` elements determines the parse of any longer
/// count: the remaining elements are read from the remainder.
pub proof fn lemma_parse_list_split<V>(
    b: Seq<u8>,
    i: nat,
    n: nat,
    one: spec_fn(Seq<u8>) -> Option<(V, Seq<u8>)>,
    vs: Seq<V>,
    r: Seq<u8>,
)
    requires
        i <= n,
        parse_list(b, i, one) == Some((vs, r)),
    ensures
        parse_list(b, n, one) == match parse_list(r, (n - i) as nat, one) {
            None => None,
            Some((vs2, r2)) => Some((vs + vs2, r2)),
        },
    decreases i,
{
    if i == 0 {
        assert(r == b);
        assert(vs =~= Seq::<V>::empty());
        match parse_list(r, n, one) {
            None => {
            },
            Some((vs2, r2)) => {
                assert(vs + vs2 =~= vs2);
            },
        }
    } else {
        let (v0, rest) = one(b).unwrap();
        let (vs1, _tail) = parse_list(rest, (i - 1) as nat, one).unwrap();
        assert(vs == seq![v0] + vs1);
        assert(vs1 == vs.drop_first());
        lemma_parse_list_split(rest, (i - 1) as nat, (n - 1) as nat, one, vs1, r);
        match parse_list(r, (n - i) as nat, one) {
            None => {
            },
            Some((vs2, r2)) => {
                assert(seq![v0] + (vs1 + vs2) =~= vs + vs2);
            },
        }
    }
}

/// Truncating the encoding of a list of valid elements anywhere short of its
/// end makes the list parse fail, provided each valid element's parser
/// inverts its encoder and fails on every strict prefix of an element image.
pub proof fn lemma_parse_list_enc_trunc<V>(
    s: Seq<V>,
    t: int,
    enc_one: spec_fn(V) -> Seq<u8>,
    parse_one: spec_fn(Seq<u8>) -> Option<(V, Seq<u8>)>,
    valid: spec_fn(V) -> bool,
)
    requires
        0 <= t < enc_list(s, enc_one).len(),
        forall|i: int| 0 <= i < s.len() ==> valid(#[trigger] s[i]),
        forall|v: V, r: Seq<u8>|
            valid(v) ==> #[trigger] parse_one(enc_one(v) + r) == Some((v, r)),
        forall|v: V, u: int|
            valid(v) && 0 <= u < enc_one(v).len() ==> #[trigger] parse_one(
                enc_one(v).take(u),
            ) is None,
    ensures
        parse_list(enc_list(s, enc_one).take(t), s.len() as nat, parse_one) is None,
    decreases s.len(),
{
    let whole = enc_list(s, enc_one);
    let b = whole.take(t);
    let first = enc_one(s[0]);
    let tail_enc = enc_list(s.drop_first(), enc_one);
    assert(whole =~= first + tail_enc);
    if t < first.len() {
        assert(b =~= first.take(t));
        assert(parse_one(b) is None);
    } else {
        let tail_trunc = tail_enc.take(t - first.len());
        assert(b =~= first + tail_trunc);
        assert(parse_one(b) == Some((s[0], tail_trunc)));
        assert(forall|i: int|
            0 <= i < s.drop_first().len() ==> valid(#[trigger] s.drop_first()[i]));
        lemma_parse_list_enc_trunc(s.drop_first(), t - first.len(), enc_one, parse_one, valid);
    }
}

// ---------------------------------------------------------------------------
// Round-trip and length lemmas
// ---------------------------------------------------------------------------
/// A `u16` image is two bytes and parses back to the value written.
pub proof fn lemma_parse_u16_enc(x: u16, rest: Seq<u8>)
    ensures
        enc_u16(x).len() == 2,
        spec_u16_from_le_bytes(enc_u16(x)) == x,
        parse_u16(enc_u16(x) + rest) == Some((x, rest)),
{
    lemma_auto_spec_u16_to_from_le_bytes();
    assert((enc_u16(x) + rest).take(2) =~= enc_u16(x));
    assert((enc_u16(x) + rest).skip(2) =~= rest);
}

/// A `u32` image is four bytes and parses back to the value written.
pub proof fn lemma_parse_u32_enc(x: u32, rest: Seq<u8>)
    ensures
        enc_u32(x).len() == 4,
        spec_u32_from_le_bytes(enc_u32(x)) == x,
        parse_u32(enc_u32(x) + rest) == Some((x, rest)),
{
    lemma_auto_spec_u32_to_from_le_bytes();
    assert((enc_u32(x) + rest).take(4) =~= enc_u32(x));
    assert((enc_u32(x) + rest).skip(4) =~= rest);
}

/// A `u64` image is eight bytes and parses back to the value written.
pub proof fn lemma_parse_u64_enc(x: u64, rest: Seq<u8>)
    ensures
        enc_u64(x).len() == 8,
        spec_u64_from_le_bytes(enc_u64(x)) == x,
        parse_u64(enc_u64(x) + rest) == Some((x, rest)),
{
    lemma_auto_spec_u64_to_from_le_bytes();
    assert((enc_u64(x) + rest).take(8) =~= enc_u64(x));
    assert((enc_u64(x) + rest).skip(8) =~= rest);
}

/// A `u64` sequence image is eight bytes per element.
pub proof fn lemma_enc_u64_seq_len(s: Seq<u64>)
    ensures
        enc_u64_seq(s).len() == 8 * s.len(),
    decreases s.len(),
{
    if s.len() == 0 {
    } else {
        lemma_parse_u64_enc(s[0], Seq::empty());
        lemma_enc_u64_seq_len(s.drop_first());
    }
}

/// Appending one element to a `u64` sequence appends its image to the encoding.
pub proof fn lemma_enc_u64_seq_push(s: Seq<u64>, x: u64)
    ensures
        enc_u64_seq(s.push(x)) == enc_u64_seq(s) + enc_u64(x),
    decreases s.len(),
{
    if s.len() == 0 {
        assert(s.push(x).drop_first() =~= Seq::<u64>::empty());
        assert(s =~= Seq::<u64>::empty());
        assert(enc_u64_seq(Seq::<u64>::empty()) == Seq::<u8>::empty());
        assert(enc_u64_seq(s.push(x)) == enc_u64(x) + enc_u64_seq(Seq::<u64>::empty()));
        assert(enc_u64_seq(s.push(x)) =~= enc_u64_seq(s) + enc_u64(x));
    } else {
        assert(s.push(x)[0] == s[0]);
        assert(s.push(x).drop_first() =~= s.drop_first().push(x));
        lemma_enc_u64_seq_push(s.drop_first(), x);
        assert(enc_u64_seq(s.push(x)) == enc_u64(s[0]) + (enc_u64_seq(s.drop_first())
            + enc_u64(x)));
        assert(enc_u64_seq(s.push(x)) =~= enc_u64_seq(s) + enc_u64(x));
    }
}

/// Parsing the encoding of a `u64` sequence (with anything after it) returns
/// exactly the encoded values and leaves the suffix unread.
pub proof fn lemma_parse_u64_seq_enc(s: Seq<u64>, rest: Seq<u8>)
    ensures
        parse_u64_seq(enc_u64_seq(s) + rest, s.len() as nat) == Some((s, rest)),
    decreases s.len(),
{
    if s.len() == 0 {
        assert(enc_u64_seq(s) + rest =~= rest);
        assert(s =~= Seq::<u64>::empty());
    } else {
        let tail_enc = enc_u64_seq(s.drop_first()) + rest;
        assert(enc_u64_seq(s) + rest =~= enc_u64(s[0]) + tail_enc);
        lemma_parse_u64_enc(s[0], tail_enc);
        lemma_parse_u64_seq_enc(s.drop_first(), rest);
        assert(seq![s[0]] + s.drop_first() =~= s);
    }
}

/// A buffer shorter than eight bytes per element cannot hold the sequence.
pub proof fn lemma_parse_u64_seq_short(b: Seq<u8>, n: nat)
    requires
        b.len() < 8 * n,
    ensures
        parse_u64_seq(b, n) is None,
    decreases n,
{
    if n > 0 {
        if b.len() >= 8 {
            lemma_parse_u64_seq_short(b.skip(8), (n - 1) as nat);
        }
    }
}

/// With at least eight bytes per element available, parsing succeeds and
/// reads each element at its fixed offset.
pub proof fn lemma_parse_u64_seq_total(b: Seq<u8>, n: nat)
    requires
        8 * n <= b.len(),
    ensures
        parse_u64_seq(b, n) == Some(
            (
                Seq::new(n, |i: int| spec_u64_from_le_bytes(b.subrange(8 * i, 8 * i + 8))),
                b.skip(8 * n as int),
            ),
        ),
    decreases n,
{
    let want = Seq::new(n, |i: int| spec_u64_from_le_bytes(b.subrange(8 * i, 8 * i + 8)));
    if n == 0 {
        assert(b.skip(0) =~= b);
        assert(want =~= Seq::<u64>::empty());
    } else {
        let rest = b.skip(8);
        lemma_parse_u64_seq_total(rest, (n - 1) as nat);
        let tail_want = Seq::new(
            (n - 1) as nat,
            |i: int| spec_u64_from_le_bytes(rest.subrange(8 * i, 8 * i + 8)),
        );
        assert forall|i: int| 0 <= i < n - 1 implies tail_want[i] == want[i + 1] by {
            assert(rest.subrange(8 * i, 8 * i + 8) =~= b.subrange(8 * (i + 1), 8 * (i + 1) + 8));
        }
        assert(b.take(8) =~= b.subrange(0, 8));
        assert(seq![want[0]] + tail_want =~= want);
        assert(rest.skip(8 * (n - 1) as int) =~= b.skip(8 * n as int));
    }
}

// ---------------------------------------------------------------------------
// Length-prefixed UTF-8 strings and counted lists of them
// ---------------------------------------------------------------------------
/// Image of a string: the 16-bit byte length of its UTF-8 encoding, then the
/// encoded bytes.
pub open spec fn enc_str(t: Seq<char>) -> Seq<u8> {
    enc_u16(encode_utf8(t).len() as u16) + encode_utf8(t)
}

/// Read a length-prefixed string from the front of `b`; fails when the
/// counted bytes are missing or are not valid UTF-8.
pub open spec fn parse_str(b: Seq<u8>) -> Option<(Seq<char>, Seq<u8>)> {
    match parse_u16(b) {
        None => None,
        Some((n, r1)) => match parse_bytes(r1, n as nat) {
            None => None,
            Some((bs, r2)) => if valid_utf8(bs) {
                Some((decode_utf8(bs), r2))
            } else {
                None
            },
        },
    }
}

/// A string image is `2 + |utf8|` bytes and parses back to the characters
/// written, leaving any suffix unread.
pub proof fn lemma_parse_str_enc(t: Seq<char>, rest: Seq<u8>)
    requires
        encode_utf8(t).len() <= 0xFFFF,
    ensures
        enc_str(t).len() == 2 + encode_utf8(t).len(),
        parse_str(enc_str(t) + rest) == Some((t, rest)),
{
    let bs = encode_utf8(t);
    let n16 = bs.len() as u16;
    lemma_parse_u16_enc(n16, bs + rest);
    assert(enc_str(t) + rest =~= enc_u16(n16) + (bs + rest));
    assert((bs + rest).take(bs.len() as int) =~= bs);
    assert((bs + rest).skip(bs.len() as int) =~= rest);
    encode_utf8_valid_utf8(t);
    encode_utf8_decode_utf8(t);
}

/// Truncating a string image short of its end makes its parse fail.
pub proof fn lemma_parse_str_trunc(t: Seq<char>, u: int)
    requires
        encode_utf8(t).len() <= 0xFFFF,
        0 <= u < enc_str(t).len(),
    ensures
        parse_str(enc_str(t).take(u)) is None,
{
    let bs = encode_utf8(t);
    let n16 = bs.len() as u16;
    lemma_parse_u16_enc(n16, bs);
    let b = enc_str(t).take(u);
    if u < 2 {
    } else {
        assert(b.take(2) =~= (enc_u16(n16) + bs).take(2));
        assert(parse_u16(b) == Some((n16, b.skip(2))));
        assert(b.skip(2).len() == u - 2);
    }
}

/// The character sequences of a vector of strings.
pub open spec fn strs_view(s: Seq<String>) -> Seq<Seq<char>> {
    s.map_values(|t: String| t@)
}

/// Encoder of one string, as a first-class function.
pub open spec fn tag_enc_fn() -> spec_fn(Seq<char>) -> Seq<u8> {
    |t: Seq<char>| enc_str(t)
}

/// Parser of one string, as a first-class function.
pub open spec fn tag_parse_fn() -> spec_fn(Seq<u8>) -> Option<(Seq<char>, Seq<u8>)> {
    |b: Seq<u8>| parse_str(b)
}

/// Well-formedness of one string (its UTF-8 length fits the 16-bit
/// prefix), as a first-class function.
pub open spec fn tag_wf_fn() -> spec_fn(Seq<char>) -> bool {
    |t: Seq<char>| encode_utf8(t).len() <= 0xFFFF
}

/// Image size of one string, as a first-class function.
pub open spec fn tag_size_fn() -> spec_fn(Seq<char>) -> int {
    |t: Seq<char>| 2 + encode_utf8(t).len() as int
}

/// Well-formedness of a tag list: the count and every string length fit
/// their 16-bit prefixes.
pub open spec fn tags_wf(tags: Seq<Seq<char>>) -> bool {
    &&& tags.len() <= 0xFFFF
    &&& forall|i: int| 0 <= i < tags.len() ==> tag_wf_fn()(#[trigger] tags[i])
}

/// Total image size of a tag list: a 16-bit count plus each string image.
pub open spec fn tags_size(tags: Seq<Seq<char>>) -> int {
    2 + sum_list(tags, tag_size_fn())
}

/// Byte image of a tag list.
pub open spec fn enc_tags(tags: Seq<Seq<char>>) -> Seq<u8> {
    enc_u16(tags.len() as u16) + enc_list(tags, tag_enc_fn())
}

/// Read a 16-bit count, then that many length-prefixed strings.
pub open spec fn parse_tags(b: Seq<u8>) -> Option<(Seq<Seq<char>>, Seq<u8>)> {
    match parse_u16(b) {
        None => None,
        Some((n, r)) => parse_list(r, n as nat, tag_parse_fn()),
    }
}

/// The image of a tag list is exactly `tags_size` bytes.
pub proof fn lemma_enc_tags_len(tags: Seq<Seq<char>>)
    ensures
        enc_tags(tags).len() == tags_size(tags),
{
    lemma_parse_u16_enc(tags.len() as u16, Seq::empty());
    lemma_enc_tag_list_len(tags);
}

/// The concatenated string images are exactly `sum_list` bytes.
pub proof fn lemma_enc_tag_list_len(tags: Seq<Seq<char>>)
    ensures
        enc_list(tags, tag_enc_fn()).len() == sum_list(tags, tag_size_fn()),
    decreases tags.len(),
{
    if tags.len() > 0 {
        lemma_parse_u16_enc(encode_utf8(tags[0]).len() as u16, Seq::empty());
        lemma_enc_tag_list_len(tags.drop_first());
    }
}

/// A tag list image parses back to the tags written, leaving any suffix
/// unread.
pub proof fn lemma_parse_tags_enc(tags: Seq<Seq<char>>, rest: Seq<u8>)
    requires
        tags_wf(tags),
    ensures
        parse_tags(enc_tags(tags) + rest) == Some((tags, rest)),
{
    let n16 = tags.len() as u16;
    let list_enc = enc_list(tags, tag_enc_fn());
    lemma_parse_u16_enc(n16, list_enc + rest);
    assert(enc_tags(tags) + rest =~= enc_u16(n16) + (list_enc + rest));
    assert forall|t: Seq<char>, r: Seq<u8>| tag_wf_fn()(t) implies #[trigger] tag_parse_fn()(
        tag_enc_fn()(t) + r,
    ) == Some((t, r)) by {
        lemma_parse_str_enc(t, r);
    }
    lemma_parse_list_enc(tags, rest, tag_enc_fn(), tag_parse_fn(), tag_wf_fn());
}

/// Truncating a tag list image short of its end makes its parse fail.
pub proof fn lemma_parse_tags_trunc(tags: Seq<Seq<char>>, u: int)
    requires
        tags_wf(tags),
        0 <= u < enc_tags(tags).len(),
    ensures
        parse_tags(enc_tags(tags).take(u)) is None,
{
    let n16 = tags.len() as u16;
    let list_enc = enc_list(tags, tag_enc_fn());
    lemma_parse_u16_enc(n16, list_enc);
    let b = enc_tags(tags).take(u);
    if u < 2 {
    } else {
        assert(b.take(2) =~= (enc_u16(n16) + list_enc).take(2));
        assert(parse_u16(b) == Some((n16, b.skip(2))));
        assert(b.skip(2) =~= list_enc.take(u - 2));
        assert forall|t: Seq<char>, r: Seq<u8>| tag_wf_fn()(t) implies #[trigger] tag_parse_fn()(
            tag_enc_fn()(t) + r,
        ) == Some((t, r)) by {
            lemma_parse_str_enc(t, r);
        }
        assert forall|t: Seq<char>, w: int|
            tag_wf_fn()(t) && 0 <= w < tag_enc_fn()(t).len() implies #[trigger] tag_parse_fn()(
            tag_enc_fn()(t).take(w),
        ) is None by {
            lemma_parse_str_trunc(t, w);
        }
        lemma_parse_list_enc_trunc(tags, u - 2, tag_enc_fn(), tag_parse_fn(), tag_wf_fn());
    }
}

// ---------------------------------------------------------------------------
// Counted u64 lists: a 16-bit element count followed by the elements
// ---------------------------------------------------------------------------
/// Image of a `u64` list prefixed with its 16-bit element count.
pub open spec fn enc_counted_u64s(s: Seq<u64>) -> Seq<u8> {
    enc_u16(s.len() as u16) + enc_u64_seq(s)
}

/// Read a 16-bit count, then that many `u64`s.
pub open spec fn parse_counted_u64s(b: Seq<u8>) -> Option<(Seq<u64>, Seq<u8>)> {
    match parse_u16(b) {
        None => None,
        Some((n, r)) => parse_u64_seq(r, n as nat),
    }
}

/// A counted list image is `2 + 8n` bytes and parses back to the list
/// written, leaving any suffix unread.
pub proof fn lemma_parse_counted_u64s_enc(s: Seq<u64>, rest: Seq<u8>)
    requires
        s.len() <= 0xFFFF,
    ensures
        enc_counted_u64s(s).len() == 2 + 8 * s.len(),
        parse_counted_u64s(enc_counted_u64s(s) + rest) == Some((s, rest)),
{
    let n16 = s.len() as u16;
    let tail = enc_u64_seq(s) + rest;
    lemma_enc_u64_seq_len(s);
    lemma_parse_u16_enc(n16, tail);
    assert(enc_counted_u64s(s) + rest =~= enc_u16(n16) + tail);
    lemma_parse_u64_seq_enc(s, rest);
}

/// Truncating a counted list image short of its end makes the parse fail.
pub proof fn lemma_parse_counted_u64s_trunc(s: Seq<u64>, t: int)
    requires
        s.len() <= 0xFFFF,
        0 <= t < enc_counted_u64s(s).len(),
    ensures
        parse_counted_u64s(enc_counted_u64s(s).take(t)) is None,
{
    let n16 = s.len() as u16;
    let whole = enc_counted_u64s(s);
    let b = whole.take(t);
    lemma_enc_u64_seq_len(s);
    lemma_parse_u16_enc(n16, enc_u64_seq(s));
    if t < 2 {
    } else {
        assert(b.take(2) =~= (enc_u16(n16) + enc_u64_seq(s)).take(2));
        assert(parse_u16(b) == Some((n16, b.skip(2))));
        assert(b.skip(2).len() == t - 2);
        lemma_parse_u64_seq_short(b.skip(2), s.len() as nat);
    }
}

/// Append the counted image of `vals` to `out`.
pub fn push_counted_u64s(out: &mut Vec<u8>, vals: &Vec<u64>)
    requires
        vals@.len() <= 0xFFFF,
    ensures
        final(out)@ == old(out)@ + enc_counted_u64s(vals@),
{
    push_u16(out, vals.len() as u16);
    push_u64_list(out, vals);
    proof {
        assert(out@ =~= old(out)@ + enc_counted_u64s(vals@));
    }
}

/// Read a counted `u64` list starting at byte offset `off`; on success also
/// returns the offset just past the list.
pub fn read_counted_u64s(s: &[u8], off: usize) -> (r: Result<(Vec<u64>, usize), DbError>)
    requires
        off <= s@.len(),
    ensures
        match r {
            Ok((vals, end)) => {
                &&& parse_counted_u64s(s@.skip(off as int)) == Some((vals@, s@.skip(end as int)))
                &&& off <= end <= s@.len()
                &&& vals@.len() <= 0xFFFF
                &&& end == off + 2 + 8 * vals@.len()
            },
            Err(e) => parse_counted_u64s(s@.skip(off as int)) is None && e is DeserializationError,
        },
{
    let slice_len = s.len();
    if slice_len - off < 2 {
        return Err(DbError::DeserializationError("truncated list count"));
    }
    let n16 = read_u16_at(s, off);
    let n = n16 as usize;
    proof {
        assert(s@.skip(off as int).take(2) =~= s@.subrange(off as int, off as int + 2));
        assert(s@.skip(off as int).skip(2) =~= s@.skip(off as int + 2));
        assert(parse_u16(s@.skip(off as int)) == Some((n16, s@.skip(off as int + 2))));
    }
    if n * 8 > slice_len - (off + 2) {
        proof {
            lemma_parse_u64_seq_short(s@.skip(off as int + 2), n as nat);
        }
        return Err(DbError::DeserializationError("truncated list elements"));
    }
    let vals = read_u64_list(s, off + 2, n);
    Ok((vals, off + 2 + n * 8))
}

// ---------------------------------------------------------------------------
// Executable helpers
// ---------------------------------------------------------------------------
/// Read the byte stored at offset `off`.
pub fn read_u8_at(s: &[u8], off: usize) -> (x: u8)
    requires
        off < s@.len(),
    ensures
        x == s@[off as int],
{
    s[off]
}

/// Append a single byte to `out`.
pub fn push_u8(out: &mut Vec<u8>, x: u8)
    ensures
        final(out)@ == old(out)@ + seq![x],
{
    out.push(x);
    proof {
        assert(out@ =~= old(out)@ + seq![x]);
    }
}

/// Read the little-endian `u16` stored at byte offset `off`.
pub fn read_u16_at(s: &[u8], off: usize) -> (x: u16)
    requires
        off + 2 <= s@.len(),
    ensures
        x == spec_u16_from_le_bytes(s@.subrange(off as int, off as int + 2)),
{
    let slice_len = s.len();
    proof {
        assert(off + 2 <= slice_len);
    }
    let sub = slice_subrange(s, off, off + 2);
    u16_from_le_bytes(sub)
}

/// Read the little-endian `u32` stored at byte offset `off`.
pub fn read_u32_at(s: &[u8], off: usize) -> (x: u32)
    requires
        off + 4 <= s@.len(),
    ensures
        x == spec_u32_from_le_bytes(s@.subrange(off as int, off as int + 4)),
{
    let slice_len = s.len();
    proof {
        assert(off + 4 <= slice_len);
    }
    let sub = slice_subrange(s, off, off + 4);
    u32_from_le_bytes(sub)
}

/// Append the four-byte image of `x` to `out`.
pub fn push_u32(out: &mut Vec<u8>, x: u32)
    ensures
        final(out)@ == old(out)@ + enc_u32(x),
{
    let mut b = u32_to_le_bytes(x);
    out.append(&mut b);
}

/// Read the little-endian `u64` stored at byte offset `off`.
pub fn read_u64_at(s: &[u8], off: usize) -> (x: u64)
    requires
        off + 8 <= s@.len(),
    ensures
        x == spec_u64_from_le_bytes(s@.subrange(off as int, off as int + 8)),
{
    let slice_len = s.len();
    proof {
        assert(off + 8 <= slice_len);
    }
    let sub = slice_subrange(s, off, off + 8);
    u64_from_le_bytes(sub)
}

/// Copy the bytes at `off .. off + n` into a fresh vector.
pub fn read_bytes_at(s: &[u8], off: usize, n: usize) -> (r: Vec<u8>)
    requires
        off + n <= s@.len(),
    ensures
        r@ == s@.subrange(off as int, off as int + n as int),
{
    let slice_len = s.len();
    proof {
        assert(off + n <= slice_len);
    }
    slice_to_vec(slice_subrange(s, off, off + n))
}

/// Append the two-byte image of `x` to `out`.
pub fn push_u16(out: &mut Vec<u8>, x: u16)
    ensures
        final(out)@ == old(out)@ + enc_u16(x),
{
    let mut b = u16_to_le_bytes(x);
    out.append(&mut b);
}

/// Append the eight-byte image of `x` to `out`.
pub fn push_u64(out: &mut Vec<u8>, x: u64)
    ensures
        final(out)@ == old(out)@ + enc_u64(x),
{
    let mut b = u64_to_le_bytes(x);
    out.append(&mut b);
}

/// Append the images of all values in `vals` to `out`.
pub fn push_u64_list(out: &mut Vec<u8>, vals: &Vec<u64>)
    ensures
        final(out)@ == old(out)@ + enc_u64_seq(vals@),
{
    let n = vals.len();
    let mut i: usize = 0;
    while i < n
        invariant
            n == vals@.len(),
            i <= n,
            out@ =~= old(out)@ + enc_u64_seq(vals@.take(i as int)),
        decreases n - i,
    {
        push_u64(out, vals[i]);
        proof {
            lemma_enc_u64_seq_push(vals@.take(i as int), vals@[i as int]);
            assert(vals@.take(i as int + 1) =~= vals@.take(i as int).push(vals@[i as int]));
            assert(out@ =~= old(out)@ + enc_u64_seq(vals@.take(i as int + 1)));
        }
        i = i + 1;
    }
    proof {
        assert(vals@.take(n as int) =~= vals@);
    }
}

/// Read `n` consecutive `u64`s starting at byte offset `off`.
pub fn read_u64_list(s: &[u8], off: usize, n: usize) -> (r: Vec<u64>)
    requires
        off + 8 * n <= s@.len(),
    ensures
        r@.len() == n,
        parse_u64_seq(s@.skip(off as int), n as nat) == Some(
            (r@, s@.skip(off as int + 8 * n as int)),
        ),
{
    let slice_len = s.len();
    proof {
        lemma_parse_u64_seq_total(s@.skip(off as int), n as nat);
    }
    let ghost want = Seq::new(
        n as nat,
        |i: int| spec_u64_from_le_bytes(s@.skip(off as int).subrange(8 * i, 8 * i + 8)),
    );
    let mut r: Vec<u64> = Vec::new();
    let mut i: usize = 0;
    while i < n
        invariant
            i <= n,
            off + 8 * n <= s@.len(),
            slice_len == s@.len(),
            want == Seq::new(
                n as nat,
                |j: int| spec_u64_from_le_bytes(s@.skip(off as int).subrange(8 * j, 8 * j + 8)),
            ),
            r@ =~= want.take(i as int),
        decreases n - i,
    {
        let x = read_u64_at(s, off + 8 * i);
        proof {
            assert(s@.subrange(
                off as int + 8 * i as int,
                off as int + 8 * i as int + 8,
            ) =~= s@.skip(off as int).subrange(8 * i as int, 8 * i as int + 8));
            assert(x == want[i as int]);
            assert(r@.push(x) =~= want.take(i as int + 1));
        }
        r.push(x);
        i = i + 1;
    }
    proof {
        assert(r@ =~= want);
        assert(s@.skip(off as int).skip(8 * n as int) =~= s@.skip(off as int + 8 * n as int));
    }
    r
}

/// Overwrite the first `src.len()` bytes of `buf` with `src`, leaving the
/// tail of `buf` unchanged.
pub fn overwrite_prefix(buf: &mut Vec<u8>, src: &[u8])
    requires
        src@.len() <= old(buf)@.len(),
    ensures
        final(buf)@ == src@ + old(buf)@.skip(src@.len() as int),
{
    let n = src.len();
    let mut i: usize = 0;
    while i < n
        invariant
            n == src@.len(),
            i <= n,
            n <= buf@.len(),
            buf@.len() == old(buf)@.len(),
            buf@ =~= src@.take(i as int) + old(buf)@.skip(i as int),
        decreases n - i,
    {
        let x = src[i];
        buf.set(i, x);
        proof {
            assert(buf@ =~= src@.take(i as int + 1) + old(buf)@.skip(i as int + 1));
        }
        i = i + 1;
    }
    proof {
        assert(src@.take(n as int) =~= src@);
    }
}

/// Append the image of a string to `out`: its UTF-8 byte length, then its
/// UTF-8 bytes.
pub fn push_str(out: &mut Vec<u8>, s: &str)
    requires
        encode_utf8(s@).len() <= 0xFFFF,
    ensures
        final(out)@ == old(out)@ + enc_str(s@),
{
    let bs = s.as_bytes();
    push_u16(out, bs.len() as u16);
    out.extend_from_slice(bs);
    proof {
        assert(out@ =~= old(out)@ + enc_str(s@));
    }
}

/// Read a length-prefixed UTF-8 string starting at byte offset `off`; on
/// success also returns the offset just past the string.
pub fn read_str(s: &[u8], off: usize) -> (r: Result<(String, usize), DbError>)
    requires
        off <= s@.len(),
    ensures
        match r {
            Ok((st, end)) => {
                &&& parse_str(s@.skip(off as int)) == Some((st@, s@.skip(end as int)))
                &&& off <= end <= s@.len()
                &&& encode_utf8(st@).len() <= 0xFFFF
                &&& end == off + 2 + encode_utf8(st@).len()
            },
            Err(e) => parse_str(s@.skip(off as int)) is None && e is DeserializationError,
        },
{
    let slice_len = s.len();
    if slice_len - off < 2 {
        return Err(DbError::DeserializationError("truncated string length"));
    }
    let n16 = read_u16_at(s, off);
    let n = n16 as usize;
    proof {
        assert(s@.skip(off as int).take(2) =~= s@.subrange(off as int, off as int + 2));
        assert(s@.skip(off as int).skip(2) =~= s@.skip(off as int + 2));
        assert(parse_u16(s@.skip(off as int)) == Some((n16, s@.skip(off as int + 2))));
    }
    if n > slice_len - (off + 2) {
        return Err(DbError::DeserializationError("truncated string bytes"));
    }
    let sub = slice_subrange(s, off + 2, off + 2 + n);
    proof {
        assert(s@.skip(off as int + 2).take(n as int) =~= s@.subrange(
            off as int + 2,
            off as int + 2 + n as int,
        ));
        assert(s@.skip(off as int + 2).skip(n as int) =~= s@.skip(off as int + 2 + n as int));
    }
    match utf8_to_string(sub) {
        Some(st) => {
            proof {
                encode_utf8_valid_utf8(st@);
                encode_utf8_decode_utf8(st@);
            }
            Ok((st, off + 2 + n))
        },
        None => Err(DbError::DeserializationError("string bytes are not valid UTF-8")),
    }
}

/// Append the image of a tag list to `out`: a 16-bit count, then each tag.
pub fn push_tags(out: &mut Vec<u8>, tags: &Vec<String>)
    requires
        tags_wf(strs_view(tags@)),
    ensures
        final(out)@ == old(out)@ + enc_tags(strs_view(tags@)),
{
    let ghost tview = strs_view(tags@);
    push_u16(out, tags.len() as u16);
    let ghost header = old(out)@ + enc_u16(tags@.len() as u16);
    let n = tags.len();
    let mut i: usize = 0;
    while i < n
        invariant
            i <= n,
            n == tags@.len(),
            tview == strs_view(tags@),
            tags_wf(tview),
            header == old(out)@ + enc_u16(tags@.len() as u16),
            out@ =~= header + enc_list(tview.take(i as int), tag_enc_fn()),
        decreases n - i,
    {
        proof {
            assert(tview[i as int] == tags@[i as int]@);
            assert(tag_wf_fn()(tview[i as int]));
        }
        push_str(out, tags[i].as_str());
        proof {
            lemma_enc_list_push(tview.take(i as int), tview[i as int], tag_enc_fn());
            assert(tview.take(i as int + 1) =~= tview.take(i as int).push(tview[i as int]));
            assert(out@ =~= header + enc_list(tview.take(i as int + 1), tag_enc_fn()));
        }
        i = i + 1;
    }
    proof {
        assert(tview.take(n as int) =~= tview);
        assert(out@ =~= old(out)@ + enc_tags(tview));
    }
}

/// Read a counted tag list starting at byte offset `off`; on success also
/// returns the offset just past the list.
pub fn read_tags(s: &[u8], off: usize) -> (r: Result<(Vec<String>, usize), DbError>)
    requires
        off <= s@.len(),
    ensures
        match r {
            Ok((tags, end)) => {
                &&& parse_tags(s@.skip(off as int)) == Some(
                    (strs_view(tags@), s@.skip(end as int)),
                )
                &&& off <= end <= s@.len()
                &&& tags_wf(strs_view(tags@))
            },
            Err(e) => parse_tags(s@.skip(off as int)) is None && e is DeserializationError,
        },
{
    let slice_len = s.len();
    if slice_len - off < 2 {
        return Err(DbError::DeserializationError("truncated tag count"));
    }
    let n16 = read_u16_at(s, off);
    let n = n16 as usize;
    proof {
        assert(s@.skip(off as int).take(2) =~= s@.subrange(off as int, off as int + 2));
        assert(s@.skip(off as int).skip(2) =~= s@.skip(off as int + 2));
        assert(parse_u16(s@.skip(off as int)) == Some((n16, s@.skip(off as int + 2))));
    }
    let ghost b0 = s@.skip(off as int + 2);
    let mut tags: Vec<String> = Vec::new();
    let mut cur = off + 2;
    let mut i: usize = 0;
    while i < n
        invariant
            i <= n,
            n <= 0xFFFF,
            n == n16 as usize,
            off + 2 <= cur <= slice_len,
            slice_len == s@.len(),
            b0 == s@.skip(off as int + 2),
            parse_u16(s@.skip(off as int)) == Some((n16, b0)),
            tags@.len() == i,
            parse_list(b0, i as nat, tag_parse_fn()) == Some(
                (strs_view(tags@), s@.skip(cur as int)),
            ),
            forall|j: int| 0 <= j < i ==> tag_wf_fn()(#[trigger] strs_view(tags@)[j]),
        decreases n - i,
    {
        let ghost rem = s@.skip(cur as int);
        let (st, end) = match read_str(s, cur) {
            Ok(ok) => ok,
            Err(e) => {
                proof {
                    assert(tag_parse_fn()(rem) is None);
                    lemma_parse_list_split(b0, i as nat, n as nat, tag_parse_fn(),
                        strs_view(tags@), rem);
                }
                return Err(e);
            },
        };
        proof {
            assert(tag_parse_fn()(rem) == Some((st@, s@.skip(end as int))));
            lemma_parse_list_snoc(b0, i as nat, tag_parse_fn(), strs_view(tags@), rem, st@,
                s@.skip(end as int));
            assert(strs_view(tags@.push(st)) =~= strs_view(tags@).push(st@));
        }
        tags.push(st);
        cur = end;
        i = i + 1;
    }
    Ok((tags, cur))
}

/// Relies on `std::str::from_utf8` (with `str::to_owned`): decoding succeeds
/// exactly on valid UTF-8 input, and the characters returned are the ones
/// whose UTF-8 encoding is that input.
#[verifier::external_body]
pub(crate) fn utf8_to_string(bytes: &[u8]) -> (r: Option<String>)
    ensures
        match r {
            Some(s) => bytes@ == vstd::utf8::encode_utf8(s@),
            None => !vstd::utf8::valid_utf8(bytes@),
        },
{
    match std::str::from_utf8(bytes) {
        Ok(s) => Some(s.to_owned()),
        Err(_) => None,
    }
}

} // verus!
