//! Decisions of the contact solver that do not depend on arithmetic.

use crate::double::{below, less_than, undefined};
use vstd::prelude::*;

verus! {

/// How candidate pairs are found.
#[derive(Clone, Copy, Debug, PartialEq, Eq, Structural)]
pub enum BroadPhaseKind {
    /// A uniform grid, which may offer pairs that do not touch.
    Grid,
    /// A tree of boxes, which offers exactly the pairs that touch.
    Bvh,
}

/// The id that stands for the ground.
pub const GROUND: u128 = u128::MAX;

/// Joints of the first `k` whose other end is known, each with the end that holds it.
pub open spec fn joints_between(joints: Seq<(u128, u128)>, known: Seq<u128>, k: nat) -> Seq<
    (u128, u128),
>
    decreases k,
{
    if k == 0 || k > joints.len() {
        Seq::empty()
    } else {
        let found = joints_between(joints, known, (k - 1) as nat);
        if known.contains(joints[k - 1].1) {
            found.push(joints[k - 1])
        } else {
            found
        }
    }
}

fn knows(known: &Vec<u128>, id: u128) -> (r: bool)
    ensures
        r == known@.contains(id),
{
    let mut i: usize = 0;
    while i < known.len()
        invariant
            i <= known.len(),
            forall|k: int| 0 <= k < i ==> known@[k] != id,
        decreases known.len() - i,
    {
        if known[i] == id {
            return true;
        }
        i = i + 1;
    }
    false
}

/// Lists the joints that can be solved.
pub fn live_joints(joints: &Vec<(u128, u128)>, known: &Vec<u128>) -> (r: Vec<(u128, u128)>)
    ensures
        r@ == joints_between(joints@, known@, joints@.len()),
{
    let mut found: Vec<(u128, u128)> = Vec::new();
    let mut i: usize = 0;
    while i < joints.len()
        invariant
            i <= joints.len(),
            found@ == joints_between(joints@, known@, i as nat),
        decreases joints.len() - i,
    {
        if knows(known, joints[i].1) {
            found.push(joints[i]);
        }
        i = i + 1;
    }
    found
}

/// The deepest of the contacts before an index, by the bits of their depths: a later
/// one counts only where it is deeper.
pub open spec fn deepest(depths: Seq<u64>, k: nat) -> Option<nat>
    decreases k,
{
    if k == 0 || k > depths.len() {
        None
    } else {
        match deepest(depths, (k - 1) as nat) {
            None => Some((k - 1) as nat),
            Some(best) => if below(depths[best as int], depths[k - 1]) {
                Some((k - 1) as nat)
            } else {
                Some(best)
            },
        }
    }
}

proof fn lemma_deepest(depths: Seq<u64>, k: nat)
    requires
        0 < k <= depths.len(),
    ensures
        deepest(depths, k) matches Some(i) && i < k,
    decreases k,
{
    reveal_with_fuel(deepest, 2);
    if k > 1 {
        lemma_deepest(depths, (k - 1) as nat);
    }
}

/// Finds the deepest of several contacts.
pub fn find_deepest(depths: &Vec<u64>) -> (r: Option<usize>)
    ensures
        match r {
            None => deepest(depths@, depths@.len()) is None,
            Some(i) => deepest(depths@, depths@.len()) == Some(i as nat) && i < depths@.len(),
        },
{
    if depths.len() == 0 {
        return None;
    }
    let mut best: usize = 0;
    let mut i: usize = 1;
    proof {
        reveal_with_fuel(deepest, 2);
    }
    while i < depths.len()
        invariant
            1 <= i <= depths.len(),
            best < i,
            deepest(depths@, i as nat) == Some(best as nat),
        decreases depths.len() - i,
    {
        if less_than(depths[best], depths[i]) {
            best = i;
        }
        i = i + 1;
    }
    Some(best)
}

/// No contact is deeper than the one that is found.
pub proof fn law_deepest_is_not_exceeded(depths: Seq<u64>, i: int)
    requires
        0 <= i < depths.len(),
        forall|j: int| 0 <= j < depths.len() ==> !undefined(#[trigger] depths[j]),
    ensures
        deepest(depths, depths.len()) matches Some(best) && !below(depths[best as int], depths[i]),
{
    lemma_deepest_bound(depths, depths.len(), i);
}

proof fn lemma_deepest_bound(depths: Seq<u64>, k: nat, i: int)
    requires
        0 <= i < k <= depths.len(),
        forall|j: int| 0 <= j < depths.len() ==> !undefined(#[trigger] depths[j]),
    ensures
        deepest(depths, k) matches Some(best) && best < k && !below(
            depths[best as int],
            depths[i],
        ),
    decreases k,
{
    lemma_deepest(depths, k);
    if k > 1 {
        lemma_deepest(depths, (k - 1) as nat);
        let before = deepest(depths, (k - 1) as nat)->0;
        assert(!undefined(depths[before as int]) && !undefined(depths[i]) && !undefined(
            depths[k - 1],
        ));
        if i < k - 1 {
            lemma_deepest_bound(depths, (k - 1) as nat, i);
        }
    }
}

/// A joint is solved exactly where its other end is known.
pub proof fn law_solved_joints_are_known(
    joints: Seq<(u128, u128)>,
    known: Seq<u128>,
    k: nat,
    joint: (u128, u128),
)
    requires
        k <= joints.len(),
    ensures
        joints_between(joints, known, k).contains(joint) <==> joints.take(k as int).contains(joint)
            && known.contains(joint.1),
    decreases k,
{
    if k > 0 {
        law_solved_joints_are_known(joints, known, (k - 1) as nat, joint);
        let before = joints.take(k - 1);
        let all = joints.take(k as int);
        assert(all =~= before.push(joints[k - 1]));
        assert(all[k - 1] == joints[k - 1]);
        if before.contains(joint) {
            let a = choose|a: int| 0 <= a < before.len() && before[a] == joint;
            assert(all[a] == joint);
        }
        let found = joints_between(joints, known, (k - 1) as nat);
        let grown = joints_between(joints, known, k);
        if known.contains(joints[k - 1].1) {
            assert(grown[found.len() as int] == joints[k - 1]);
            if found.contains(joint) {
                let a = choose|a: int| 0 <= a < found.len() && found[a] == joint;
                assert(grown[a] == joint);
            }
        }
    }
}

} // verus!
