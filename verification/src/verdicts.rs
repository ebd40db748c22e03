//! The verdicts of invariants: each invariant has one of its own, and a violation is
//! told with the text of the invariant that it is a verdict of.

use crate::decl::SystemDeclView;
use crate::eir::slot_offset;
use crate::fault::FaultView;
use crate::kinds::{body_for, invariants_before, system_for, systems_for};
use crate::names::assoc_get;
use crate::numbers::NumbersView;
use crate::program::SystemView;
use crate::runtime::invariant_texts;
use crate::systems::SurroundingsView;
use vstd::prelude::*;

verus! {

proof fn lemma_each_system(
    n: NumbersView,
    env: SurroundingsView,
    s: Seq<SystemDeclView>,
    k: nat,
    i: int,
)
    requires
        0 <= i < k <= s.len(),
        systems_for(n, env, s, k) is Ok,
    ensures
        ({
            let systems = systems_for(n, env, s, k)->Ok_0;
            let before = invariants_before(s, i as nat) as usize;
            systems.len() == k && system_for(n, env, s[i], before) == Ok::<
                SystemView,
                FaultView,
            >(systems[i])
        }),
    decreases k,
{
    reveal_with_fuel(systems_for, 2);
    if k > 1 {
        let j = if i < k - 1 {
            i
        } else {
            0
        };
        lemma_each_system(n, env, s, (k - 1) as nat, j);
    }
}

proof fn lemma_invariant(n: NumbersView, env: SurroundingsView, d: SystemDeclView, before: usize)
    requires
        d.kind == "invariant"@,
        system_for(n, env, d, before) is Ok,
    ensures
        system_for(n, env, d, before)->Ok_0 matches SystemView::Invariant { check_offset, .. }
            && check_offset == slot_offset(before),
        assoc_get(d.update, "expr"@) is Some,
{
    reveal(system_for);
    reveal_strlit("invariant");
    reveal_strlit("gravity");
    reveal_strlit("integrate");
    reveal_strlit("damping");
    reveal_strlit("ground_contact");
    reveal_strlit("wall");
    reveal_strlit("force");
    reveal_strlit("linear");
    reveal_strlit("nbody");
    reveal_strlit("send");
    reveal_strlit("recv");
    reveal_strlit("update");
    reveal_strlit("rk4");
    assert("invariant"@[2] == 'v' && "integrate"@[2] == 't');
    assert(body_for(d) is None);
}

proof fn lemma_counted(s: Seq<SystemDeclView>, i: nat, j: nat)
    requires
        i < j <= s.len(),
        s[i as int].kind == "invariant"@,
    ensures
        invariants_before(s, i) < invariants_before(s, j) <= j,
    decreases j,
{
    if i + 1 < j {
        lemma_counted(s, i, (j - 1) as nat);
    } else {
        lemma_count(s, i);
    }
}

proof fn lemma_count(s: Seq<SystemDeclView>, k: nat)
    ensures
        invariants_before(s, k) <= k,
    decreases k,
{
    if k > 0 {
        lemma_count(s, (k - 1) as nat);
    }
}

/// Whether every invariant among the first `k` declarations has an expression.
spec fn expressed(s: Seq<SystemDeclView>, k: nat) -> bool {
    forall|i: int|
        0 <= i < k && (#[trigger] s[i]).kind == "invariant"@ ==> assoc_get(
            s[i].update,
            "expr"@,
        ) is Some
}

proof fn lemma_texts(s: Seq<SystemDeclView>, k: nat, i: nat)
    requires
        k <= s.len(),
        expressed(s, k),
    ensures
        invariant_texts(s, k).len() == invariants_before(s, k),
        i < k && s[i as int].kind == "invariant"@ ==> invariants_before(s, i) < invariant_texts(
            s,
            k,
        ).len() && assoc_get(s[i as int].update, "expr"@) == Some(
            invariant_texts(s, k)[invariants_before(s, i) as int],
        ),
    decreases k,
{
    if k > 0 {
        lemma_texts(s, (k - 1) as nat, i);
        if i < k && s[i as int].kind == "invariant"@ {
            lemma_counted(s, i, k);
        }
    }
}

/// The invariant of a declaration writes its verdict to a field of its own, and the
/// text that a runtime keeps for that field is that of the invariant.
pub proof fn law_verdicts_tell_their_invariant(
    n: NumbersView,
    env: SurroundingsView,
    s: Seq<SystemDeclView>,
    i: int,
)
    requires
        0 <= i < s.len(),
        s.len() < 0x1000_0000,
        s[i].kind == "invariant"@,
        systems_for(n, env, s, s.len()) is Ok,
    ensures
        systems_for(n, env, s, s.len())->Ok_0[i] matches SystemView::Invariant {
            check_offset,
            ..
        } && {
            let texts = invariant_texts(s, s.len());
            &&& check_offset / 8 < texts.len()
            &&& assoc_get(s[i].update, "expr"@) == Some(texts[(check_offset / 8) as int])
        },
{
    lemma_verdict(n, env, s, i);
    assert forall|j: int| 0 <= j < s.len() && (#[trigger] s[j]).kind == "invariant"@ implies
        assoc_get(s[j].update, "expr"@) is Some by {
        lemma_verdict(n, env, s, j);
    }
    lemma_texts(s, s.len(), i as nat);
}

proof fn lemma_verdict(
    n: NumbersView,
    env: SurroundingsView,
    s: Seq<SystemDeclView>,
    i: int,
)
    requires
        0 <= i < s.len(),
        s.len() < 0x1000_0000,
        s[i].kind == "invariant"@,
        systems_for(n, env, s, s.len()) is Ok,
    ensures
        systems_for(n, env, s, s.len())->Ok_0[i] matches SystemView::Invariant {
            check_offset,
            ..
        } && check_offset == 8 * invariants_before(s, i as nat),
        assoc_get(s[i].update, "expr"@) is Some,
{
    lemma_each_system(n, env, s, s.len(), i);
    lemma_count(s, i as nat);
    lemma_invariant(n, env, s[i], invariants_before(s, i as nat) as usize);
}

/// No two invariants share a verdict.
pub proof fn law_verdicts_are_apart(
    n: NumbersView,
    env: SurroundingsView,
    s: Seq<SystemDeclView>,
    i: int,
    j: int,
)
    requires
        0 <= i < j < s.len(),
        s.len() < 0x1000_0000,
        s[i].kind == "invariant"@,
        s[j].kind == "invariant"@,
        systems_for(n, env, s, s.len()) is Ok,
    ensures
        ({
            let systems = systems_for(n, env, s, s.len())->Ok_0;
            systems[i] matches SystemView::Invariant { check_offset: a, .. } && systems[j] matches
                SystemView::Invariant { check_offset: b, .. } && a != b
        }),
{
    lemma_verdict(n, env, s, i);
    lemma_verdict(n, env, s, j);
    lemma_counted(s, i as nat, j as nat);
}

} // verus!
