//! Primitive on-disk identifiers: page addresses, event positions and
//! transaction sequence numbers. All three are opaque 64-bit newtypes.

use vstd::prelude::*;

verus! {

/// Physical page address in the backing file. `PageID(0)` is the reserved
/// "null" value: it marks the end of an overflow chain and the absence of a
/// nested free-list subtree.
#[derive(Debug, Clone, Copy, PartialEq, Eq, Structural, PartialOrd, Ord, Hash)]
pub struct PageID(pub u64);

/// Transaction sequence number, assigned monotonically at each commit.
#[derive(Debug, Clone, Copy, PartialEq, Eq, Structural, PartialOrd, Ord, Hash)]
pub struct Tsn(pub u64);

/// Position of an event in the log: dense, starting at 0, strictly
/// increasing along the event stream.
#[derive(Debug, Clone, Copy, PartialEq, Eq, Structural, PartialOrd, Ord, Hash)]
pub struct Position(pub u64);

/// The raw 64-bit values behind a sequence of positions.
pub open spec fn u64s_of_positions(s: Seq<Position>) -> Seq<u64> {
    s.map_values(|p: Position| p.0)
}

/// The raw 64-bit values behind a sequence of page ids.
pub open spec fn u64s_of_page_ids(s: Seq<PageID>) -> Seq<u64> {
    s.map_values(|p: PageID| p.0)
}

/// The raw 64-bit values behind a sequence of transaction numbers.
pub open spec fn u64s_of_tsns(s: Seq<Tsn>) -> Seq<u64> {
    s.map_values(|t: Tsn| t.0)
}

/// Strip the `Position` wrapper from every element.
pub fn positions_to_u64s(v: &Vec<Position>) -> (r: Vec<u64>)
    ensures
        r@ == u64s_of_positions(v@),
{
    let n = v.len();
    let mut r: Vec<u64> = Vec::new();
    let mut i: usize = 0;
    while i < n
        invariant
            i <= n,
            n == v@.len(),
            r@ =~= u64s_of_positions(v@.take(i as int)),
        decreases n - i,
    {
        r.push(v[i].0);
        proof {
            assert(r@ =~= u64s_of_positions(v@.take(i as int + 1)));
        }
        i = i + 1;
    }
    proof {
        assert(v@.take(n as int) =~= v@);
    }
    r
}

/// Wrap every element as a `Position`.
pub fn u64s_to_positions(v: &Vec<u64>) -> (r: Vec<Position>)
    ensures
        u64s_of_positions(r@) == v@,
{
    let n = v.len();
    let mut r: Vec<Position> = Vec::new();
    let mut i: usize = 0;
    while i < n
        invariant
            i <= n,
            n == v@.len(),
            u64s_of_positions(r@) =~= v@.take(i as int),
        decreases n - i,
    {
        let ghost r0 = r@;
        r.push(Position(v[i]));
        proof {
            assert(u64s_of_positions(r0).len() == i as int);
            assert(r0.len() == i as int);
            assert forall|j: int| 0 <= j < r@.len() implies u64s_of_positions(r@)[j] == v@.take(
                i as int + 1,
            )[j] by {
                assert(u64s_of_positions(r@)[j] == r@[j].0);
                if j < i as int {
                    assert(u64s_of_positions(r0)[j] == r0[j].0);
                }
            }
            assert(u64s_of_positions(r@) =~= v@.take(i as int + 1));
        }
        i = i + 1;
    }
    proof {
        assert(v@.take(n as int) =~= v@);
    }
    r
}

/// Strip the `PageID` wrapper from every element.
pub fn page_ids_to_u64s(v: &Vec<PageID>) -> (r: Vec<u64>)
    ensures
        r@ == u64s_of_page_ids(v@),
{
    let n = v.len();
    let mut r: Vec<u64> = Vec::new();
    let mut i: usize = 0;
    while i < n
        invariant
            i <= n,
            n == v@.len(),
            r@ =~= u64s_of_page_ids(v@.take(i as int)),
        decreases n - i,
    {
        r.push(v[i].0);
        proof {
            assert(r@ =~= u64s_of_page_ids(v@.take(i as int + 1)));
        }
        i = i + 1;
    }
    proof {
        assert(v@.take(n as int) =~= v@);
    }
    r
}

/// Wrap every element as a `PageID`.
pub fn u64s_to_page_ids(v: &Vec<u64>) -> (r: Vec<PageID>)
    ensures
        u64s_of_page_ids(r@) == v@,
{
    let n = v.len();
    let mut r: Vec<PageID> = Vec::new();
    let mut i: usize = 0;
    while i < n
        invariant
            i <= n,
            n == v@.len(),
            u64s_of_page_ids(r@) =~= v@.take(i as int),
        decreases n - i,
    {
        let ghost r0 = r@;
        r.push(PageID(v[i]));
        proof {
            assert(u64s_of_page_ids(r0).len() == i as int);
            assert(r0.len() == i as int);
            assert forall|j: int| 0 <= j < r@.len() implies u64s_of_page_ids(r@)[j] == v@.take(
                i as int + 1,
            )[j] by {
                assert(u64s_of_page_ids(r@)[j] == r@[j].0);
                if j < i as int {
                    assert(u64s_of_page_ids(r0)[j] == r0[j].0);
                }
            }
            assert(u64s_of_page_ids(r@) =~= v@.take(i as int + 1));
        }
        i = i + 1;
    }
    proof {
        assert(v@.take(n as int) =~= v@);
    }
    r
}

/// Strip the `Tsn` wrapper from every element.
pub fn tsns_to_u64s(v: &Vec<Tsn>) -> (r: Vec<u64>)
    ensures
        r@ == u64s_of_tsns(v@),
{
    let n = v.len();
    let mut r: Vec<u64> = Vec::new();
    let mut i: usize = 0;
    while i < n
        invariant
            i <= n,
            n == v@.len(),
            r@ =~= u64s_of_tsns(v@.take(i as int)),
        decreases n - i,
    {
        r.push(v[i].0);
        proof {
            assert(r@ =~= u64s_of_tsns(v@.take(i as int + 1)));
        }
        i = i + 1;
    }
    proof {
        assert(v@.take(n as int) =~= v@);
    }
    r
}

/// Wrap every element as a `Tsn`.
pub fn u64s_to_tsns(v: &Vec<u64>) -> (r: Vec<Tsn>)
    ensures
        u64s_of_tsns(r@) == v@,
{
    let n = v.len();
    let mut r: Vec<Tsn> = Vec::new();
    let mut i: usize = 0;
    while i < n
        invariant
            i <= n,
            n == v@.len(),
            u64s_of_tsns(r@) =~= v@.take(i as int),
        decreases n - i,
    {
        let ghost r0 = r@;
        r.push(Tsn(v[i]));
        proof {
            assert(u64s_of_tsns(r0).len() == i as int);
            assert(r0.len() == i as int);
            assert forall|j: int| 0 <= j < r@.len() implies u64s_of_tsns(r@)[j] == v@.take(
                i as int + 1,
            )[j] by {
                assert(u64s_of_tsns(r@)[j] == r@[j].0);
                if j < i as int {
                    assert(u64s_of_tsns(r0)[j] == r0[j].0);
                }
            }
            assert(u64s_of_tsns(r@) =~= v@.take(i as int + 1));
        }
        i = i + 1;
    }
    proof {
        assert(v@.take(n as int) =~= v@);
    }
    r
}

} // verus!
