//! Ordering what a ray hit.
//!
//! Distances come as the bits of IEEE doubles. They are ordered the way the
//! standard total order of floats has it, so one bad collider with a distance
//! that is no number cannot upset the rest.

use vstd::prelude::*;

verus! {

/// The place of a double among all doubles, by its bits: below zero the order
/// of the bits is the reverse of that of the numbers.
pub open spec fn total_rank(bits: u64) -> int {
    if bits < 0x8000_0000_0000_0000 {
        bits as int
    } else {
        0x7fff_ffff_ffff_ffff - bits
    }
}

/// Whether a double comes strictly before another in the total order.
pub fn comes_before(a: u64, b: u64) -> (r: bool)
    ensures
        r == (total_rank(a) < total_rank(b)),
{
    if a < 0x8000_0000_0000_0000 {
        b < 0x8000_0000_0000_0000 && a < b
    } else {
        b < 0x8000_0000_0000_0000 || a > b
    }
}

/// Whether `order` lists the first `n` hits, nearest first, those of one
/// distance in the order they were found.
pub open spec fn is_nearest_first(distances: Seq<u64>, n: nat, order: Seq<usize>) -> bool {
    &&& order.len() == n
    &&& forall|i: int| 0 <= i < order.len() ==> (#[trigger] order[i]) < n
    &&& forall|i: int, j: int|
        0 <= i < j < order.len() ==> {
            ||| total_rank(distances[(#[trigger] order[i]) as int]) < total_rank(
                distances[(#[trigger] order[j]) as int],
            )
            ||| total_rank(distances[order[i] as int]) == total_rank(distances[order[j] as int])
                && order[i] < order[j]
        }
}

/// The order of hits, **nearest first**: the indices of the hits, given their
/// distances in the order they were found.
pub fn nearest_first(distances: &[u64]) -> (order: Vec<usize>)
    ensures
        is_nearest_first(distances@, distances@.len(), order@),
{
    let mut order: Vec<usize> = Vec::new();
    let mut i: usize = 0;
    while i < distances.len()
        invariant
            i <= distances@.len(),
            is_nearest_first(distances@, i as nat, order@),
        decreases distances@.len() - i,
    {
        let ghost before = order@;
        let mut at: usize = i;
        while at > 0 && comes_before(distances[i], distances[order[at - 1]])
            invariant
                i < distances@.len(),
                at <= i,
                order@ == before,
                is_nearest_first(distances@, i as nat, before),
                forall|j: int|
                    at <= j < i ==> total_rank(distances@[i as int]) < total_rank(
                        distances@[(#[trigger] before[j]) as int],
                    ),
            decreases at,
        {
            at = at - 1;
        }
        order.insert(at, i);
        proof {
            let now = order@;
            assert forall|x: int, y: int| 0 <= x < y < now.len() implies {
                ||| total_rank(distances@[(#[trigger] now[x]) as int]) < total_rank(
                    distances@[(#[trigger] now[y]) as int],
                )
                ||| total_rank(distances@[now[x] as int]) == total_rank(distances@[now[y] as int])
                    && now[x] < now[y]
            } by {
                let x0 = if x > at {
                    x - 1
                } else {
                    x
                };
                if y == at && x0 < at - 1 {
                    assert(total_rank(distances@[before[x0] as int]) <= total_rank(
                        distances@[before[at - 1] as int],
                    ));
                }
            }
        }
        i = i + 1;
    }
    order
}

/// No hit is lost or named twice.
pub proof fn law_every_hit_is_listed_once(distances: Seq<u64>, n: nat, order: Seq<usize>)
    requires
        is_nearest_first(distances, n, order),
    ensures
        order.no_duplicates(),
        order.to_set().len() == n,
        forall|i: usize| order.to_set().contains(i) ==> i < n,
{
    order.unique_seq_to_set();
}

/// The first of the order is the nearest of all.
pub proof fn law_the_nearest_comes_first(distances: Seq<u64>, order: Seq<usize>, i: int)
    requires
        is_nearest_first(distances, distances.len(), order),
        0 <= i < order.len(),
    ensures
        total_rank(distances[order[0] as int]) <= total_rank(distances[order[i] as int]),
{
}

/// Doubles are ordered as their bits say: of two without a sign the smaller bits
/// come first, of two with a sign the larger, and a sign comes before none.
pub proof fn law_bits_are_ordered_like_numbers(a: u64, b: u64, r: bool)
    requires
        call_ensures(comes_before, (a, b), r),
    ensures
        a < 0x8000_0000_0000_0000 && b < 0x8000_0000_0000_0000 ==> r == (a < b),
        a >= 0x8000_0000_0000_0000 && b >= 0x8000_0000_0000_0000 ==> r == (a > b),
        a >= 0x8000_0000_0000_0000 && b < 0x8000_0000_0000_0000 ==> r,
        a < 0x8000_0000_0000_0000 && b >= 0x8000_0000_0000_0000 ==> !r,
        total_rank(a) == total_rank(b) <==> a == b,
{
}

/// Hits at distances without a sign come out by distance, and those of one
/// distance in the order they were found.
pub proof fn law_hits_come_out_by_distance(
    distances: &[u64],
    order: Vec<usize>,
    i: int,
    j: int,
)
    requires
        call_ensures(nearest_first, (distances,), order),
        0 <= i < j < order@.len(),
        distances@[order@[i] as int] < 0x8000_0000_0000_0000,
        distances@[order@[j] as int] < 0x8000_0000_0000_0000,
    ensures
        order@.len() == distances@.len(),
        order@[i] < distances@.len() && order@[j] < distances@.len(),
        distances@[order@[i] as int] <= distances@[order@[j] as int],
        distances@[order@[i] as int] == distances@[order@[j] as int] ==> order@[i] < order@[j],
{
}

} // verus!
