//! What the systems' lowerings have in common.

use crate::eir::{
    code, slot_offset, state_slot, Component, ComponentView, Instruction, InstructionView, Opcode,
    Real, ValueType, IS_DYNAMIC, MASS, POS_X, POS_Y, POS_Z, VEL_X, VEL_Y, VEL_Z,
};
use crate::emit::{
    binary, const_of, const_reg, effect_of, effect_view, emit, emit_effect, emit_state, fresh_reg,
    op_of, read_of, read_reg, resumed, test_of, test_reg, Emit,
};
use crate::expr::PropKind;
use crate::refs::{key_less, keys_increase, Key};
use crate::scope::RegMap;
use vstd::prelude::*;

verus! {

/// A reusable component system that lowers to instructions: one function per
/// entity that it runs on.
pub trait EirSystem {
    /// The name of the system.
    spec fn title(&self) -> Seq<char>;

    /// The instructions for one entity behind those that are there.
    spec fn lowered(&self, entity: u128, out: Seq<InstructionView>) -> Seq<InstructionView>;

    /// The stable, human-readable name of the system.
    fn name(&self) -> (r: &'static str)
        ensures
            r@ == self.title(),
    ;

    /// Appends the lowering of the system for one entity.
    fn lower_entity(&self, entity: u128, out: &mut Vec<Instruction>)
        ensures
            code(final(out)@) == self.lowered(entity, code(old(out)@)),
    ;
}

/// A list with the end of a function.
pub open spec fn ended(out: Seq<InstructionView>) -> Seq<InstructionView> {
    out.push(effect_view(Opcode::Return, Seq::empty(), None))
}

/// Ends a function.
pub fn end(out: &mut Vec<Instruction>)
    ensures
        code(final(out)@) == ended(code(old(out)@)),
{
    let operands: Vec<u32> = Vec::new();
    emit_effect(Opcode::Return, operands, None, out);
}

/// Whether a rule applies to an entity: without a restriction, to every one.
pub open spec fn applies(only: Option<Seq<u128>>, entity: u128) -> bool {
    match only {
        None => true,
        Some(ids) => ids.contains(entity),
    }
}

/// The value of an optional restriction.
pub open spec fn only_view(only: Option<Vec<u128>>) -> Option<Seq<u128>> {
    match only {
        None => None,
        Some(ids) => Some(ids@),
    }
}

/// Whether a list holds an id.
pub fn contains_id(ids: &Vec<u128>, id: u128) -> (r: bool)
    ensures
        r == ids@.contains(id),
{
    let mut i: usize = 0;
    while i < ids.len()
        invariant
            i <= ids.len(),
            forall|j: int| 0 <= j < i ==> ids@[j] != id,
        decreases ids.len() - i,
    {
        if ids[i] == id {
            return true;
        }
        i = i + 1;
    }
    false
}

/// Decides [`applies`].
pub fn rule_applies(only: &Option<Vec<u128>>, entity: u128) -> (r: bool)
    ensures
        r == applies(only_view(*only), entity),
{
    match only {
        None => true,
        Some(ids) => contains_id(ids, entity),
    }
}

/// The component field of a property.
pub open spec fn prop_target(kind: PropKind) -> (ComponentView, u32) {
    match kind {
        PropKind::Mass => (ComponentView::RigidBody, MASS),
        PropKind::IsDynamic => (ComponentView::RigidBody, IS_DYNAMIC),
        PropKind::PositionX => (ComponentView::Transform, POS_X),
        PropKind::PositionY => (ComponentView::Transform, POS_Y),
        PropKind::PositionZ => (ComponentView::Transform, POS_Z),
        PropKind::VelocityX => (ComponentView::Velocity, VEL_X),
        PropKind::VelocityY => (ComponentView::Velocity, VEL_Y),
        PropKind::VelocityZ => (ComponentView::Velocity, VEL_Z),
        PropKind::State(i) => (ComponentView::State, slot_offset(i)),
    }
}

/// Maps a property to its component and byte offset.
pub fn prop_component(kind: PropKind) -> (r: (Component, u32))
    ensures
        (r.0@, r.1) == prop_target(kind),
{
    match kind {
        PropKind::Mass => (Component::RigidBody, MASS),
        PropKind::IsDynamic => (Component::RigidBody, IS_DYNAMIC),
        PropKind::PositionX => (Component::Transform, POS_X),
        PropKind::PositionY => (Component::Transform, POS_Y),
        PropKind::PositionZ => (Component::Transform, POS_Z),
        PropKind::VelocityX => (Component::Velocity, VEL_X),
        PropKind::VelocityY => (Component::Velocity, VEL_Y),
        PropKind::VelocityZ => (Component::Velocity, VEL_Z),
        PropKind::State(i) => (Component::State, state_slot(i)),
    }
}

/// Reads of the first `n` properties of a list, each into a fresh register.
pub open spec fn key_reads(out: Seq<InstructionView>, keys: Seq<Key>, n: nat) -> (
    Seq<InstructionView>,
    Seq<(u128, PropKind, u32)>,
)
    decreases n,
{
    if n == 0 || n > keys.len() {
        (out, Seq::empty())
    } else {
        let (out, regs) = key_reads(out, keys, (n - 1) as nat);
        let key = keys[n - 1];
        let target = prop_target(key.1);
        let (s, r) = read_of(resumed(out), key.0, target.0, target.1);
        (s.out, regs.push((key.0, key.1, r)))
    }
}

/// Every property of a list has one register, that of its place in the list.
pub proof fn law_each_key_has_its_register(out: Seq<InstructionView>, keys: Seq<Key>, n: nat)
    requires
        n <= keys.len(),
    ensures
        key_reads(out, keys, n).1.len() == n,
        forall|i: int|
            0 <= i < n ==> (#[trigger] key_reads(out, keys, n).1[i]).0 == keys[i].0 && key_reads(
                out,
                keys,
                n,
            ).1[i].1 == keys[i].1,
    decreases n,
{
    if n > 0 {
        law_each_key_has_its_register(out, keys, (n - 1) as nat);
    }
}

/// Where the keys of a list increase, as those of collected references do, no key has two
/// registers.
pub proof fn law_keys_are_read_once(out: Seq<InstructionView>, keys: Seq<Key>, i: int, j: int)
    requires
        keys_increase(keys),
        0 <= i < j < keys.len(),
    ensures
        ({
            let regs = key_reads(out, keys, keys.len()).1;
            (regs[i].0, regs[i].1) != (regs[j].0, regs[j].1)
        }),
{
    law_each_key_has_its_register(out, keys, keys.len());
    let regs = key_reads(out, keys, keys.len()).1;
    assert(regs[i].0 == keys[i].0 && regs[j].0 == keys[j].0);
    assert(key_less(keys[i], keys[j]));
}

/// Reads each property of a list once.
pub fn read_keys(keys: &Vec<Key>, out: &mut Vec<Instruction>) -> (r: RegMap)
    ensures
        (code(final(out)@), r@) == key_reads(code(old(out)@), keys@, keys@.len()),
{
    let ghost start = code(out@);
    let mut regs = RegMap::new();
    let mut i: usize = 0;
    while i < keys.len()
        invariant
            i <= keys.len(),
            (code(out@), regs@) == key_reads(start, keys@, i as nat),
        decreases keys.len() - i,
    {
        let key: Key = keys[i];
        let target: (Component, u32) = prop_component(key.1);
        let mut next: u32 = fresh_reg(out);
        let r: u32 = read_reg(key.0, target.0, target.1, &mut next, out);
        regs.entries.push((key.0, key.1, r));
        i = i + 1;
    }
    regs
}

/// Reads of the first `n` state slots of an entity, each into a fresh register.
pub open spec fn slot_reads(out: Seq<InstructionView>, entity: u128, n: nat) -> (
    Seq<InstructionView>,
    Seq<u32>,
)
    decreases n,
{
    if n == 0 {
        (out, Seq::empty())
    } else {
        let (out, regs) = slot_reads(out, entity, (n - 1) as nat);
        let (s, r) = read_of(
            resumed(out),
            entity,
            ComponentView::State,
            slot_offset((n - 1) as usize),
        );
        (s.out, regs.push(r))
    }
}

pub proof fn lemma_slot_reads_len(out: Seq<InstructionView>, entity: u128, n: nat)
    ensures
        slot_reads(out, entity, n).1.len() == n,
    decreases n,
{
    if n > 0 {
        lemma_slot_reads_len(out, entity, (n - 1) as nat);
    }
}

/// Reads the first state slots of an entity.
pub fn read_slots(entity: u128, slots: usize, out: &mut Vec<Instruction>) -> (regs: Vec<u32>)
    ensures
        (code(final(out)@), regs@) == slot_reads(code(old(out)@), entity, slots as nat),
        regs@.len() == slots,
{
    let ghost start = code(out@);
    let mut regs: Vec<u32> = Vec::new();
    let mut i: usize = 0;
    while i < slots
        invariant
            i <= slots,
            (code(out@), regs@) == slot_reads(start, entity, i as nat),
        decreases slots - i,
    {
        let mut next: u32 = fresh_reg(out);
        let r: u32 = read_reg(entity, Component::State, state_slot(i), &mut next, out);
        regs.push(r);
        i = i + 1;
    }
    proof {
        lemma_slot_reads_len(start, entity, slots as nat);
    }
    regs
}

/// A branch that leaves the function on the steps that are not scheduled: those
/// with `step % every != phase`. Its targets are set by [`closed`].
pub open spec fn schedule_of(s: Emit, every: u64, phase: Real) -> (Emit, u32) {
    let (s, step) = op_of(s, Opcode::Step, Seq::empty());
    let (s, n) = const_of(s, Real::Nat(every));
    let (s, rem) = op_of(s, Opcode::Rem, seq![step, n]);
    let (s, p) = const_of(s, phase);
    let (s, skip) = test_of(s, Opcode::Ne, seq![rem, p]);
    (effect_of(s, Opcode::CondBr, seq![skip, 0, 0], None), skip)
}

/// Emits the branch of a scheduled function and returns its condition and its
/// index.
pub fn emit_schedule(
    every: u64,
    phase: Real,
    next_id: &mut u32,
    out: &mut Vec<Instruction>,
) -> (r: (u32, usize))
    ensures
        (emit_state(*final(next_id), final(out)@), r.0) == schedule_of(
            emit_state(*old(next_id), old(out)@),
            every,
            phase,
        ),
        r.1 + 1 == final(out)@.len(),
{
    let none: Vec<u32> = Vec::new();
    let step: u32 = emit(Opcode::Step, ValueType::F64, none, None, None, next_id, out);
    let n: u32 = const_reg(Real::Nat(every), next_id, out);
    let rem: u32 = binary(Opcode::Rem, step, n, next_id, out);
    let p: u32 = const_reg(phase, next_id, out);
    let skip: u32 = test_reg(Opcode::Ne, rem, p, next_id, out);
    let index: usize = out.len();
    let operands: Vec<u32> = vec![skip, 0, 0];
    proof {
        assert(operands@ =~= seq![skip, 0, 0]);
    }
    let ghost before = out@;
    emit_effect(Opcode::CondBr, operands, None, out);
    proof {
        assert(code(out@).len() == code(before).len() + 1);
    }
    (skip, index)
}

/// The end of a function. A scheduled one ends twice: behind its body, and at the
/// place where the branch at `at` goes on the steps that are not scheduled.
pub open spec fn closed(
    out: Seq<InstructionView>,
    branch: Option<(u32, nat)>,
) -> Seq<InstructionView> {
    match branch {
        None => ended(out),
        Some((skip, at)) => {
            let body = ended(out);
            let both = ended(body);
            if at < both.len() {
                both.update(
                    at as int,
                    InstructionView {
                        operands: seq![skip, body.len() as u32, (at + 1) as u32],
                        ..both[at as int]
                    },
                )
            } else {
                both
            }
        },
    }
}

/// The value of an optional branch.
pub open spec fn branch_view(branch: Option<(u32, usize)>) -> Option<(u32, nat)> {
    match branch {
        None => None,
        Some((skip, at)) => Some((skip, at as nat)),
    }
}

/// Ends a function, and sets the targets of its branch.
pub fn close(branch: Option<(u32, usize)>, out: &mut Vec<Instruction>)
    ensures
        code(final(out)@) == closed(code(old(out)@), branch_view(branch)),
{
    end(out);
    if let Some((skip, at)) = branch {
        let target: usize = out.len();
        end(out);
        let ghost both = out@;
        if at < out.len() {
            let operands: Vec<u32> = vec![skip, target as u32, (at + 1) as u32];
            proof {
                assert(operands@ =~= seq![skip, target as u32, (at + 1) as u32]);
            }
            out[at].operands = operands;
            proof {
                assert(code(out@) =~= code(both).update(at as int, out@[at as int]@));
            }
        }
    }
}

} // verus!
