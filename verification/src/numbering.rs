//! The numbering of registers: each is set once, and before it is used.

use crate::eir::{ComponentRefView, ImmediateView, InstructionView, Opcode, ValueType, ZERO};
use crate::emit::{bits_of, effect_of, known_of, op_of, padded, result_of, Emit};
use vstd::prelude::*;

verus! {

/// The registers that an instruction reads: its operands, but for the targets of a
/// branch and the function of a call.
pub open spec fn uses(i: InstructionView) -> Seq<u32> {
    match i.opcode {
        Opcode::Call => if i.operands.len() > 0 {
            i.operands.skip(1)
        } else {
            i.operands
        },
        Opcode::CondBr => if i.operands.len() > 0 {
            i.operands.take(1)
        } else {
            i.operands
        },
        _ => i.operands,
    }
}

/// The next free register behind some code, where the first one is `first`.
pub open spec fn level(code: Seq<InstructionView>, first: nat) -> nat
    decreases code.len(),
{
    if code.len() == 0 {
        first
    } else {
        level(code.drop_last(), first) + if code.last().result_type is Some {
            1nat
        } else {
            0nat
        }
    }
}

/// Whether an instruction sets the next free register, or none, and uses only those
/// below. Register zero is never used.
pub open spec fn fits(i: InstructionView, free: nat) -> bool {
    &&& i.result_id == if i.result_type is Some {
        free
    } else {
        0
    }
    &&& forall|k: int| 0 <= k < uses(i).len() ==> 1 <= #[trigger] uses(i)[k] < free
}

/// Whether every instruction of some code fits behind those before it.
pub open spec fn orderly(code: Seq<InstructionView>, first: nat) -> bool
    decreases code.len(),
{
    code.len() > 0 ==> orderly(code.drop_last(), first) && fits(
        code.last(),
        level(code.drop_last(), first),
    )
}

/// Whether the registers of some code can be numbered at all.
pub open spec fn small(s: Emit, first: nat) -> bool {
    first + s.out.len() <= u32::MAX
}

/// Whether a state continues orderly code.
#[verifier::opaque]
pub open spec fn tidy(s: Emit, first: nat) -> bool {
    small(s, first) ==> orderly(s.out, first) && s.next == level(s.out, first) && 1 <= s.next
}

/// Whether a register may be used: it is set.
pub open spec fn has(s: Emit, first: nat, r: u32) -> bool {
    small(s, first) ==> 1 <= r < s.next
}

/// Whether a register may be used or is zero, which stands for no value.
pub open spec fn may(s: Emit, first: nat, r: u32) -> bool {
    r == 0 || has(s, first, r)
}

/// Whether some code starts with other code.
#[verifier::opaque]
pub open spec fn extends(a: Seq<InstructionView>, b: Seq<InstructionView>) -> bool {
    a.len() <= b.len() && forall|i: int| 0 <= i < a.len() ==> a[i] == #[trigger] b[i]
}

pub broadcast proof fn lemma_chained(
    a: Seq<InstructionView>,
    b: Seq<InstructionView>,
    c: Seq<InstructionView>,
)
    requires
        #[trigger] extends(a, b),
        #[trigger] extends(b, c),
    ensures
        extends(a, c),
{
    reveal(extends);
}

pub broadcast proof fn lemma_unchanged(a: Seq<InstructionView>)
    ensures
        #[trigger] extends(a, a),
{
    reveal(extends);
}

/// Whether a state comes after another.
pub open spec fn after(s: Emit, t: Emit, first: nat) -> bool {
    &&& extends(s.out, t.out)
    &&& s.out.len() <= t.out.len()
    &&& small(t, first) ==> s.next <= t.next
}

/// Whether every register of a list may be used.
pub open spec fn has_all(s: Emit, first: nat, regs: Seq<u32>) -> bool {
    forall|k: int| 0 <= k < regs.len() ==> has(s, first, #[trigger] regs[k])
}

/// Whether an optional register may be used.
pub open spec fn has_some(s: Emit, first: nat, r: Option<u32>) -> bool {
    r matches Some(r) ==> has(s, first, r)
}

pub proof fn lemma_level(code: Seq<InstructionView>, first: nat)
    ensures
        first <= level(code, first) <= first + code.len(),
    decreases code.len(),
{
    if code.len() > 0 {
        lemma_level(code.drop_last(), first);
    }
}

pub broadcast proof fn lemma_result(
    s: Emit,
    first: nat,
    opcode: Opcode,
    ty: ValueType,
    operands: Seq<u32>,
    constant: Option<ImmediateView>,
    target: Option<ComponentRefView>,
)
    requires
        #[trigger] tidy(s, first),
        has_all(s, first, operands),
    ensures
        ({
            let (t, r) = #[trigger] result_of(s, opcode, ty, operands, constant, target);
            tidy(t, first) && has(t, first, r) && after(s, t, first)
        }),
{
    reveal(tidy);
    reveal(extends);
    let (t, r) = result_of(s, opcode, ty, operands, constant, target);
    assert(t.out.drop_last() =~= s.out);
    lemma_level(s.out, first);
    lemma_level(t.out, first);
    if small(t, first) {
        let i = t.out.last();
        assert forall|k: int| 0 <= k < uses(i).len() implies 1 <= #[trigger] uses(i)[k] < level(
            s.out,
            first,
        ) by {
            let at = if opcode == Opcode::Call && operands.len() > 0 {
                k + 1
            } else {
                k
            };
            assert(uses(i)[k] == operands[at]);
            assert(has(s, first, operands[at]));
        }
        assert(level(t.out, first) == level(s.out, first) + 1);
        assert(s.next < u32::MAX);
    }
}

pub broadcast proof fn lemma_effect(
    s: Emit,
    first: nat,
    opcode: Opcode,
    operands: Seq<u32>,
    target: Option<ComponentRefView>,
)
    requires
        #[trigger] tidy(s, first),
        has_all(s, first, operands),
    ensures
        ({
            let t = #[trigger] effect_of(s, opcode, operands, target);
            tidy(t, first) && after(s, t, first)
        }),
{
    reveal(tidy);
    reveal(extends);
    let t = effect_of(s, opcode, operands, target);
    assert(t.out.drop_last() =~= s.out);
    if small(t, first) {
        let i = t.out.last();
        assert forall|k: int| 0 <= k < uses(i).len() implies 1 <= #[trigger] uses(i)[k] < level(
            s.out,
            first,
        ) by {
            let at = if opcode == Opcode::Call && operands.len() > 0 {
                k + 1
            } else {
                k
            };
            assert(uses(i)[k] == operands[at]);
            assert(has(s, first, operands[at]));
        }
    }
}

/// A branch uses its condition only: its targets are no registers.
pub proof fn lemma_branch(s: Emit, first: nat, skip: u32)
    requires
        tidy(s, first),
        has(s, first, skip),
    ensures
        tidy(effect_of(s, Opcode::CondBr, seq![skip, 0, 0], None), first),
        after(s, effect_of(s, Opcode::CondBr, seq![skip, 0, 0], None), first),
{
    reveal(tidy);
    reveal(extends);
    let t = effect_of(s, Opcode::CondBr, seq![skip, 0, 0], None);
    assert(t.out.drop_last() =~= s.out);
    assert(uses(t.out.last()) =~= seq![skip]);
}

pub broadcast group group_code {
    lemma_chained,
    lemma_unchanged,
}

pub broadcast group group_emitted {
    lemma_result,
    lemma_effect,
}

/// Whether a lowering step keeps its state tidy and gives a register that may be
/// used.
pub open spec fn yields(s: Emit, done: (Emit, u32), first: nat) -> bool {
    tidy(done.0, first) && has(done.0, first, done.1) && after(s, done.0, first)
}

pub proof fn lemma_known(s: Emit, first: nat, r: u32)
    requires
        tidy(s, first),
        may(s, first, r),
    ensures
        yields(s, known_of(s, r), first),
{
    broadcast use {group_code, group_emitted};

}

pub proof fn lemma_padded(s: Emit, first: nat, regs: Seq<u32>, n: nat)
    requires
        tidy(s, first),
        has_all(s, first, regs),
    ensures
        ({
            let (t, all) = padded(s, regs, n);
            tidy(t, first) && has_all(t, first, all) && after(s, t, first) && all.len() >= n
        }),
    decreases n - regs.len(),
{
    broadcast use {group_code, group_emitted};

    if regs.len() < n {
        let (s1, zero) = bits_of(s, ZERO);
        lemma_padded(s1, first, regs.push(zero), n);
    }
}

pub proof fn lemma_call(s: Emit, first: nat, target: u32, regs: Seq<u32>)
    requires
        tidy(s, first),
        has_all(s, first, regs),
    ensures
        yields(s, op_of(s, Opcode::Call, seq![target] + regs), first),
{
    reveal(tidy);
    reveal(extends);
    let (t, r) = op_of(s, Opcode::Call, seq![target] + regs);
    assert(t.out.drop_last() =~= s.out);
    lemma_level(s.out, first);
    if small(t, first) {
        let i = t.out.last();
        assert(uses(i) =~= regs);
        assert(level(t.out, first) == level(s.out, first) + 1);
    }
}

} // verus!
