//! Decisions of the spatial queries: which of several distances count. The distances are
//! doubles, given by their bits.

use crate::double::{below, is_undefined, less_than, undefined};
use vstd::prelude::*;

verus! {

/// Bits of the greatest finite double.
pub const FARTHEST: u64 = 0x7FEF_FFFF_FFFF_FFFF;

/// The nearest among the first `k` distances: the first of the least ones, if it is
/// less than the greatest finite double.
pub open spec fn nearest_of(distances: Seq<u64>, k: nat) -> Option<nat>
    decreases k,
{
    if k == 0 || k > distances.len() {
        None
    } else {
        let best = nearest_of(distances, (k - 1) as nat);
        if below(distances[k - 1], reach(distances, best)) {
            Some((k - 1) as nat)
        } else {
            best
        }
    }
}

/// The distance at an optional place, the greatest finite double without one.
pub open spec fn reach(distances: Seq<u64>, at: Option<nat>) -> u64 {
    match at {
        Some(i) => if i < distances.len() {
            distances[i as int]
        } else {
            FARTHEST
        },
        None => FARTHEST,
    }
}

/// Finds the nearest neighbour.
pub fn nearest(distances: &Vec<u64>) -> (r: Option<usize>)
    ensures
        nearest_of(distances@, distances@.len()) == (match r {
            Some(i) => Some(i as nat),
            None => None,
        }),
        r matches Some(i) ==> i < distances@.len(),
{
    let mut best: Option<usize> = None;
    let mut least: u64 = FARTHEST;
    let mut i: usize = 0;
    while i < distances.len()
        invariant
            i <= distances.len(),
            nearest_of(distances@, i as nat) == (match best {
                Some(b) => Some(b as nat),
                None => None,
            }),
            least == reach(distances@, nearest_of(distances@, i as nat)),
            best matches Some(b) ==> b < i,
        decreases distances.len() - i,
    {
        if less_than(distances[i], least) {
            best = Some(i);
            least = distances[i];
        }
        i = i + 1;
    }
    best
}

/// Whether a distance is at most a radius.
pub open spec fn within(distance: u64, radius: u64) -> bool {
    !undefined(distance) && !undefined(radius) && !below(radius, distance)
}

/// The number, among the first `k` distances, of those within a radius.
pub open spec fn count_within(distances: Seq<u64>, radius: u64, k: nat) -> nat
    decreases k,
{
    if k == 0 || k > distances.len() {
        0
    } else {
        count_within(distances, radius, (k - 1) as nat) + if within(distances[k - 1], radius) {
            1nat
        } else {
            0nat
        }
    }
}

/// Counts the neighbours within a radius.
pub fn neighbor_count(distances: &Vec<u64>, radius: u64) -> (r: usize)
    ensures
        r == count_within(distances@, radius, distances@.len()),
{
    let mut n: usize = 0;
    let mut i: usize = 0;
    while i < distances.len()
        invariant
            i <= distances.len(),
            n <= i,
            n == count_within(distances@, radius, i as nat),
        decreases distances.len() - i,
    {
        let d: u64 = distances[i];
        if !is_undefined(d) && !is_undefined(radius) && !less_than(radius, d) {
            n = n + 1;
        }
        i = i + 1;
    }
    n
}

/// The places, among the first `k`, of the distances that are not beyond a radius. One
/// that cannot be compared is not beyond it.
pub open spec fn not_beyond(distances: Seq<u64>, radius: u64, k: nat) -> Seq<usize>
    decreases k,
{
    if k == 0 || k > distances.len() {
        Seq::empty()
    } else {
        let found = not_beyond(distances, radius, (k - 1) as nat);
        if below(radius, distances[k - 1]) {
            found
        } else {
            found.push((k - 1) as usize)
        }
    }
}

/// Lists the neighbours whose values a mean takes in.
pub fn averaged(distances: &Vec<u64>, radius: u64) -> (r: Vec<usize>)
    ensures
        r@ == not_beyond(distances@, radius, distances@.len()),
{
    let mut found: Vec<usize> = Vec::new();
    let mut i: usize = 0;
    while i < distances.len()
        invariant
            i <= distances.len(),
            found@ == not_beyond(distances@, radius, i as nat),
        decreases distances.len() - i,
    {
        if !less_than(radius, distances[i]) {
            found.push(i);
        }
        i = i + 1;
    }
    found
}

proof fn lemma_nearest(distances: Seq<u64>, k: nat, i: int)
    requires
        0 <= i < k <= distances.len(),
        forall|j: int| 0 <= j < distances.len() ==> !undefined(#[trigger] distances[j]),
    ensures
        !below(distances[i], reach(distances, nearest_of(distances, k))),
        !undefined(reach(distances, nearest_of(distances, k))),
    decreases k,
{
    lemma_reach(distances, (k - 1) as nat);
    let before = reach(distances, nearest_of(distances, (k - 1) as nat));
    assert(!undefined(distances[k - 1]) && !undefined(distances[i]));
    if i < k - 1 {
        lemma_nearest(distances, (k - 1) as nat, i);
    }
}

proof fn lemma_reach(distances: Seq<u64>, k: nat)
    requires
        k <= distances.len(),
        forall|j: int| 0 <= j < distances.len() ==> !undefined(#[trigger] distances[j]),
    ensures
        !undefined(reach(distances, nearest_of(distances, k))),
        nearest_of(distances, k) matches Some(i) ==> i < k,
    decreases k,
{
    if k > 0 {
        lemma_reach(distances, (k - 1) as nat);
        assert(!undefined(distances[k - 1]));
    }
}

/// No neighbour is nearer than the one that is found.
pub proof fn law_nothing_is_nearer(distances: Seq<u64>, i: int)
    requires
        0 <= i < distances.len(),
        forall|j: int| 0 <= j < distances.len() ==> !undefined(#[trigger] distances[j]),
    ensures
        !below(distances[i], reach(distances, nearest_of(distances, distances.len()))),
{
    lemma_nearest(distances, distances.len(), i);
}

/// As many neighbours are counted as are averaged over, where all can be compared.
pub proof fn law_counted_are_averaged(distances: Seq<u64>, radius: u64, k: nat)
    requires
        k <= distances.len(),
        !undefined(radius),
        forall|j: int| 0 <= j < distances.len() ==> !undefined(#[trigger] distances[j]),
    ensures
        count_within(distances, radius, k) == not_beyond(distances, radius, k).len(),
    decreases k,
{
    if k > 0 {
        law_counted_are_averaged(distances, radius, (k - 1) as nat);
        assert(!undefined(distances[k - 1]));
    }
}

/// The nearest neighbour is the first of the nearest: no other is nearer, and those before
/// it are farther. One is found wherever a distance is less than the greatest finite
/// double.
pub proof fn law_nearest_is_the_first(distances: Seq<u64>, i: int)
    requires
        0 <= i < distances.len(),
        forall|j: int| 0 <= j < distances.len() ==> !undefined(#[trigger] distances[j]),
        below(distances[i], FARTHEST),
    ensures
        nearest_of(distances, distances.len()) matches Some(best) && {
            &&& best < distances.len()
            &&& !below(distances[i], distances[best as int])
            &&& i < best ==> below(distances[best as int], distances[i])
        },
{
    lemma_first(distances, distances.len(), i);
}

proof fn lemma_first(distances: Seq<u64>, k: nat, i: int)
    requires
        0 <= i < k <= distances.len(),
        forall|j: int| 0 <= j < distances.len() ==> !undefined(#[trigger] distances[j]),
        below(distances[i], FARTHEST),
    ensures
        nearest_of(distances, k) matches Some(best) && {
            &&& best < k
            &&& !below(distances[i], distances[best as int])
            &&& i < best ==> below(distances[best as int], distances[i])
        },
    decreases k,
{
    lemma_reach(distances, k);
    lemma_reach(distances, (k - 1) as nat);
    assert(!undefined(distances[k - 1]) && !undefined(distances[i]));
    let best = nearest_of(distances, (k - 1) as nat);
    assert(best matches Some(b) ==> !undefined(distances[b as int]));
    if i < k - 1 {
        lemma_first(distances, (k - 1) as nat, i);
    }
}

/// A neighbour is averaged over exactly where its distance is not beyond the radius, once
/// and in order.
pub proof fn law_averaged_are_not_beyond(distances: Seq<u64>, radius: u64, k: nat, i: usize)
    requires
        k <= distances.len(),
        k <= usize::MAX,
    ensures
        not_beyond(distances, radius, k).contains(i) <==> i < k && !below(
            radius,
            distances[i as int],
        ),
        forall|a: int, b: int|
            0 <= a < b < not_beyond(distances, radius, k).len() ==> #[trigger] not_beyond(
                distances,
                radius,
                k,
            )[a] < #[trigger] not_beyond(distances, radius, k)[b],
        forall|a: int|
            0 <= a < not_beyond(distances, radius, k).len() ==> #[trigger] not_beyond(
                distances,
                radius,
                k,
            )[a] < k,
    decreases k,
{
    if k > 0 {
        law_averaged_are_not_beyond(distances, radius, (k - 1) as nat, i);
        let found = not_beyond(distances, radius, (k - 1) as nat);
        let all = not_beyond(distances, radius, k);
        if !below(radius, distances[k - 1]) {
            assert(all[found.len() as int] == k - 1);
            if found.contains(i) {
                let a = choose|a: int| 0 <= a < found.len() && found[a] == i;
                assert(all[a] == i);
            }
        }
    }
}

} // verus!
