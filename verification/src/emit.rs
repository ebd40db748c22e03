//! Appending instructions to a function under construction. Registers are
//! numbered consecutively, modulo the range of a register number.

use crate::eir::{
    code, constant_view, cr, instr, target_view, Component, ComponentRef, ComponentRefView,
    ComponentView, Immediate, ImmediateView, Instruction, InstructionView, Opcode, Real, ValueType,
    ONE, ZERO,
};
use vstd::prelude::*;

verus! {

/// A function under construction: the next free register and the instructions so
/// far.
pub struct Emit {
    pub next: u32,
    pub out: Seq<InstructionView>,
}

/// The state that a register counter and an instruction list stand for.
pub open spec fn emit_state(next: u32, out: Seq<Instruction>) -> Emit {
    Emit { next, out: code(out) }
}

/// An instruction with a result: it takes the next register.
pub open spec fn result_of(
    s: Emit,
    opcode: Opcode,
    ty: ValueType,
    operands: Seq<u32>,
    constant: Option<ImmediateView>,
    target: Option<ComponentRefView>,
) -> (Emit, u32) {
    (
        Emit {
            next: s.next.wrapping_add(1),
            out: s.out.push(
                InstructionView {
                    opcode,
                    result_id: s.next,
                    result_type: Some(ty),
                    operands,
                    constant,
                    target,
                },
            ),
        },
        s.next,
    )
}

/// An instruction on registers that gives a double.
pub open spec fn op_of(s: Emit, opcode: Opcode, operands: Seq<u32>) -> (Emit, u32) {
    result_of(s, opcode, ValueType::F64, operands, None, None)
}

/// An instruction on registers that gives a truth value.
pub open spec fn test_of(s: Emit, opcode: Opcode, operands: Seq<u32>) -> (Emit, u32) {
    result_of(s, opcode, ValueType::Bool, operands, None, None)
}

/// A double constant.
pub open spec fn const_of(s: Emit, value: Real) -> (Emit, u32) {
    result_of(
        s,
        Opcode::Const,
        ValueType::F64,
        Seq::empty(),
        Some(ImmediateView::F64(value)),
        None,
    )
}

/// A double constant given by its bits.
pub open spec fn bits_of(s: Emit, bits: u64) -> (Emit, u32) {
    const_of(s, Real::Bits(bits))
}

/// The reference with the given parts.
pub open spec fn at(entity: u128, component: ComponentView, offset: u32) -> ComponentRefView {
    ComponentRefView { entity, component, offset }
}

/// A read of a component field.
pub open spec fn read_of(
    s: Emit,
    entity: u128,
    component: ComponentView,
    offset: u32,
) -> (Emit, u32) {
    result_of(
        s,
        Opcode::ReadView,
        ValueType::F64,
        Seq::empty(),
        None,
        Some(at(entity, component, offset)),
    )
}

/// An instruction without a result.
pub open spec fn effect_view(
    opcode: Opcode,
    operands: Seq<u32>,
    target: Option<ComponentRefView>,
) -> InstructionView {
    InstructionView {
        opcode,
        result_id: 0,
        result_type: None,
        operands,
        constant: None,
        target,
    }
}

/// Appends an instruction without a result.
pub open spec fn effect_of(
    s: Emit,
    opcode: Opcode,
    operands: Seq<u32>,
    target: Option<ComponentRefView>,
) -> Emit {
    Emit { next: s.next, out: s.out.push(effect_view(opcode, operands, target)) }
}

/// A write of a component field.
pub open spec fn write_of(
    s: Emit,
    entity: u128,
    component: ComponentView,
    offset: u32,
    value: u32,
) -> Emit {
    effect_of(s, Opcode::WriteView, seq![value], Some(at(entity, component, offset)))
}

/// The end of a function without a result.
pub open spec fn return_of(s: Emit) -> Emit {
    effect_of(s, Opcode::Return, Seq::empty(), None)
}

/// One where the truth value in `cond` holds, else zero.
pub open spec fn select_bool_of(s: Emit, cond: u32) -> (Emit, u32) {
    let (s1, one) = bits_of(s, ONE);
    let (s2, zero) = bits_of(s1, ZERO);
    op_of(s2, Opcode::Select, seq![cond, one, zero])
}

/// One where the value in `reg` differs from zero, else zero.
pub open spec fn truthy_of(s: Emit, reg: u32) -> (Emit, u32) {
    let (s1, zero) = bits_of(s, ZERO);
    let (s2, cond) = test_of(s1, Opcode::Ne, seq![reg, zero]);
    select_bool_of(s2, cond)
}

/// The disjunction of two gates that hold one or zero: `a + b*(1-a)`.
pub open spec fn or_gate_of(s: Emit, a: Option<u32>, b: u32) -> (Emit, u32) {
    match a {
        None => (s, b),
        Some(x) => {
            let (s1, one) = bits_of(s, ONE);
            let (s2, nx) = op_of(s1, Opcode::Sub, seq![one, x]);
            let (s3, add) = op_of(s2, Opcode::Mul, seq![b, nx]);
            op_of(s3, Opcode::Add, seq![x, add])
        },
    }
}

/// `gate * (1 - skip)`, or `1 - skip` without a first operand.
pub open spec fn unless_of(s: Emit, gate: Option<u32>, skip: u32) -> (Emit, u32) {
    let (s1, one) = bits_of(s, ONE);
    let (s2, ns) = op_of(s1, Opcode::Sub, seq![one, skip]);
    match gate {
        None => (s2, ns),
        Some(g) => op_of(s2, Opcode::Mul, seq![g, ns]),
    }
}

/// The value where the flag `gate` is one, and what was before where it is zero, whatever
/// the value comes to then.
pub open spec fn blend_of(s: Emit, prev: u32, gate: u32, value: u32) -> (Emit, u32) {
    op_of(s, Opcode::Select, seq![gate, value, prev])
}

/// A register, or a zero constant in place of register zero, which nothing sets: what
/// was not read counts as zero.
pub open spec fn known_of(s: Emit, r: u32) -> (Emit, u32) {
    if r == 0 {
        bits_of(s, ZERO)
    } else {
        (s, r)
    }
}

/// Registers, with zero constants up to a number of them.
pub open spec fn padded(s: Emit, regs: Seq<u32>, n: nat) -> (Emit, Seq<u32>)
    decreases n - regs.len(),
{
    if regs.len() >= n {
        (s, regs)
    } else {
        let (s, zero) = bits_of(s, ZERO);
        padded(s, regs.push(zero), n)
    }
}

/// Appends an instruction with a result and returns its register.
pub fn emit(
    opcode: Opcode,
    ty: ValueType,
    operands: Vec<u32>,
    constant: Option<Immediate>,
    target: Option<ComponentRef>,
    next_id: &mut u32,
    out: &mut Vec<Instruction>,
) -> (r: u32)
    ensures
        (emit_state(*final(next_id), final(out)@), r) == result_of(
            emit_state(*old(next_id), old(out)@),
            opcode,
            ty,
            operands@,
            constant_view(constant),
            target_view(target),
        ),
{
    let r: u32 = *next_id;
    *next_id = r.wrapping_add(1);
    out.push(instr(opcode, r, Some(ty), operands, constant, target));
    proof {
        assert(code(out@) =~= code(old(out)@).push(out@.last()@));
    }
    r
}

/// Appends an instruction without a result.
pub fn emit_effect(
    opcode: Opcode,
    operands: Vec<u32>,
    target: Option<ComponentRef>,
    out: &mut Vec<Instruction>,
)
    ensures
        code(final(out)@) == code(old(out)@).push(
            effect_view(opcode, operands@, target_view(target)),
        ),
{
    out.push(instr(opcode, 0, None, operands, None, target));
    proof {
        assert(code(out@) =~= code(old(out)@).push(out@.last()@));
    }
}

/// Emits a double constant and returns its register.
pub fn const_reg(value: Real, next_id: &mut u32, out: &mut Vec<Instruction>) -> (r: u32)
    ensures
        (emit_state(*final(next_id), final(out)@), r) == const_of(
            emit_state(*old(next_id), old(out)@),
            value,
        ),
{
    let operands: Vec<u32> = Vec::new();
    emit(Opcode::Const, ValueType::F64, operands, Some(Immediate::F64(value)), None, next_id, out)
}

/// Emits a double constant given by its bits.
pub fn bits_reg(bits: u64, next_id: &mut u32, out: &mut Vec<Instruction>) -> (r: u32)
    ensures
        (emit_state(*final(next_id), final(out)@), r) == bits_of(
            emit_state(*old(next_id), old(out)@),
            bits,
        ),
{
    const_reg(Real::Bits(bits), next_id, out)
}

/// An unsigned integer constant.
pub open spec fn const_u64_of(s: Emit, value: u64) -> (Emit, u32) {
    result_of(
        s,
        Opcode::Const,
        ValueType::U64,
        Seq::empty(),
        Some(ImmediateView::U64(value)),
        None,
    )
}

/// Emits an unsigned integer constant.
pub fn const_u64_reg(value: u64, next_id: &mut u32, out: &mut Vec<Instruction>) -> (r: u32)
    ensures
        (emit_state(*final(next_id), final(out)@), r) == const_u64_of(
            emit_state(*old(next_id), old(out)@),
            value,
        ),
{
    let operands: Vec<u32> = Vec::new();
    emit(Opcode::Const, ValueType::U64, operands, Some(Immediate::U64(value)), None, next_id, out)
}

/// Emits an instruction on one register.
pub fn unary(op: Opcode, a: u32, next_id: &mut u32, out: &mut Vec<Instruction>) -> (r: u32)
    ensures
        (emit_state(*final(next_id), final(out)@), r) == op_of(
            emit_state(*old(next_id), old(out)@),
            op,
            seq![a],
        ),
{
    let operands: Vec<u32> = vec![a];
    proof {
        assert(operands@ =~= seq![a]);
    }
    emit(op, ValueType::F64, operands, None, None, next_id, out)
}

/// Emits an instruction on two registers.
pub fn binary(op: Opcode, a: u32, b: u32, next_id: &mut u32, out: &mut Vec<Instruction>) -> (r: u32)
    ensures
        (emit_state(*final(next_id), final(out)@), r) == op_of(
            emit_state(*old(next_id), old(out)@),
            op,
            seq![a, b],
        ),
{
    let operands: Vec<u32> = vec![a, b];
    proof {
        assert(operands@ =~= seq![a, b]);
    }
    emit(op, ValueType::F64, operands, None, None, next_id, out)
}

/// Emits a test on two registers.
pub fn test_reg(op: Opcode, a: u32, b: u32, next_id: &mut u32, out: &mut Vec<Instruction>) -> (r:
    u32)
    ensures
        (emit_state(*final(next_id), final(out)@), r) == test_of(
            emit_state(*old(next_id), old(out)@),
            op,
            seq![a, b],
        ),
{
    let operands: Vec<u32> = vec![a, b];
    proof {
        assert(operands@ =~= seq![a, b]);
    }
    emit(op, ValueType::Bool, operands, None, None, next_id, out)
}

/// Emits a choice between two registers.
pub fn select(cond: u32, a: u32, b: u32, next_id: &mut u32, out: &mut Vec<Instruction>) -> (r: u32)
    ensures
        (emit_state(*final(next_id), final(out)@), r) == op_of(
            emit_state(*old(next_id), old(out)@),
            Opcode::Select,
            seq![cond, a, b],
        ),
{
    let operands: Vec<u32> = vec![cond, a, b];
    proof {
        assert(operands@ =~= seq![cond, a, b]);
    }
    emit(Opcode::Select, ValueType::F64, operands, None, None, next_id, out)
}

/// Emits a seeded random draw.
pub fn random_reg(next_id: &mut u32, out: &mut Vec<Instruction>) -> (r: u32)
    ensures
        (emit_state(*final(next_id), final(out)@), r) == op_of(
            emit_state(*old(next_id), old(out)@),
            Opcode::Random,
            Seq::empty(),
        ),
{
    let operands: Vec<u32> = Vec::new();
    emit(Opcode::Random, ValueType::F64, operands, None, None, next_id, out)
}

/// Emits a read of a component field.
pub fn read_reg(
    entity: u128,
    component: Component,
    offset: u32,
    next_id: &mut u32,
    out: &mut Vec<Instruction>,
) -> (r: u32)
    ensures
        (emit_state(*final(next_id), final(out)@), r) == read_of(
            emit_state(*old(next_id), old(out)@),
            entity,
            component@,
            offset,
        ),
{
    let operands: Vec<u32> = Vec::new();
    emit(
        Opcode::ReadView,
        ValueType::F64,
        operands,
        None,
        Some(cr(entity, component, offset)),
        next_id,
        out,
    )
}

/// Emits a write of a component field.
pub fn write_reg(
    entity: u128,
    component: Component,
    offset: u32,
    value: u32,
    out: &mut Vec<Instruction>,
)
    ensures
        forall|next: u32|
            #![trigger emit_state(next, final(out)@)]
            emit_state(next, final(out)@) == write_of(
                emit_state(next, old(out)@),
                entity,
                component@,
                offset,
                value,
            ),
{
    let operands: Vec<u32> = vec![value];
    proof {
        assert(operands@ =~= seq![value]);
    }
    emit_effect(Opcode::WriteView, operands, Some(cr(entity, component, offset)), out);
}

/// Emits the end of a function without a result.
pub fn return_reg(out: &mut Vec<Instruction>)
    ensures
        forall|next: u32|
            #![trigger emit_state(next, final(out)@)]
            emit_state(next, final(out)@) == return_of(emit_state(next, old(out)@)),
{
    let operands: Vec<u32> = Vec::new();
    emit_effect(Opcode::Return, operands, None, out);
}

/// Turns a truth value into one or zero.
pub fn select_bool(cond: u32, next_id: &mut u32, out: &mut Vec<Instruction>) -> (r: u32)
    ensures
        (emit_state(*final(next_id), final(out)@), r) == select_bool_of(
            emit_state(*old(next_id), old(out)@),
            cond,
        ),
{
    let one: u32 = bits_reg(ONE, next_id, out);
    let zero: u32 = bits_reg(ZERO, next_id, out);
    select(cond, one, zero, next_id, out)
}

/// Normalizes a value to one or zero: one for anything but zero.
pub fn truthy(reg: u32, next_id: &mut u32, out: &mut Vec<Instruction>) -> (r: u32)
    ensures
        (emit_state(*final(next_id), final(out)@), r) == truthy_of(
            emit_state(*old(next_id), old(out)@),
            reg,
        ),
{
    let zero: u32 = bits_reg(ZERO, next_id, out);
    let cond: u32 = test_reg(Opcode::Ne, reg, zero, next_id, out);
    select_bool(cond, next_id, out)
}

/// Emits the disjunction of two gates.
pub fn or_gate(a: Option<u32>, b: u32, next_id: &mut u32, out: &mut Vec<Instruction>) -> (r: u32)
    ensures
        (emit_state(*final(next_id), final(out)@), r) == or_gate_of(
            emit_state(*old(next_id), old(out)@),
            a,
            b,
        ),
{
    match a {
        None => b,
        Some(x) => {
            let one: u32 = bits_reg(ONE, next_id, out);
            let nx: u32 = binary(Opcode::Sub, one, x, next_id, out);
            let add: u32 = binary(Opcode::Mul, b, nx, next_id, out);
            binary(Opcode::Add, x, add, next_id, out)
        },
    }
}

/// Emits the flag that holds where `gate` does and `skip` does not.
pub fn unless_gate(
    gate: Option<u32>,
    skip: u32,
    next_id: &mut u32,
    out: &mut Vec<Instruction>,
) -> (r: u32)
    ensures
        (emit_state(*final(next_id), final(out)@), r) == unless_of(
            emit_state(*old(next_id), old(out)@),
            gate,
            skip,
        ),
{
    let one: u32 = bits_reg(ONE, next_id, out);
    let ns: u32 = binary(Opcode::Sub, one, skip, next_id, out);
    match gate {
        None => ns,
        Some(g) => binary(Opcode::Mul, g, ns, next_id, out),
    }
}

/// Emits a guarded assignment: `value` where the flag is one, `prev` where it is
/// zero.
pub fn blend(
    prev: u32,
    gate: u32,
    value: u32,
    next_id: &mut u32,
    out: &mut Vec<Instruction>,
) -> (r: u32)
    ensures
        (emit_state(*final(next_id), final(out)@), r) == blend_of(
            emit_state(*old(next_id), old(out)@),
            prev,
            gate,
            value,
        ),
{
    select(gate, value, prev, next_id, out)
}

/// The greatest result register of an instruction list, zero for an empty one.
pub open spec fn max_result(s: Seq<InstructionView>) -> u32
    decreases s.len(),
{
    if s.len() == 0 {
        0
    } else {
        let m = max_result(s.drop_last());
        if s.last().result_id > m {
            s.last().result_id
        } else {
            m
        }
    }
}

/// The register after the greatest one in use.
pub open spec fn fresh(s: Seq<InstructionView>) -> u32 {
    max_result(s).wrapping_add(1)
}

/// The state with its register counter set behind the greatest register in use.
pub open spec fn resumed(out: Seq<InstructionView>) -> Emit {
    Emit { next: fresh(out), out }
}

/// Computes the register after the greatest one in use.
pub fn fresh_reg(out: &Vec<Instruction>) -> (r: u32)
    ensures
        r == fresh(code(out@)),
        emit_state(r, out@) == resumed(code(out@)),
{
    let mut m: u32 = 0;
    let mut i: usize = 0;
    while i < out.len()
        invariant
            i <= out.len(),
            m == max_result(code(out@).take(i as int)),
        decreases out.len() - i,
    {
        proof {
            assert(code(out@).take(i + 1).drop_last() =~= code(out@).take(i as int));
            assert(code(out@).take(i + 1).last() == out@[i as int]@);
        }
        if out[i].result_id > m {
            m = out[i].result_id;
        }
        i = i + 1;
    }
    proof {
        assert(code(out@).take(out@.len() as int) =~= code(out@));
    }
    m.wrapping_add(1)
}

/// Computes [`known_of`].
pub fn known(r: u32, next_id: &mut u32, out: &mut Vec<Instruction>) -> (k: u32)
    ensures
        (emit_state(*final(next_id), final(out)@), k) == known_of(
            emit_state(*old(next_id), old(out)@),
            r,
        ),
{
    if r == 0 {
        bits_reg(ZERO, next_id, out)
    } else {
        r
    }
}

/// Computes [`padded`].
pub fn pad(regs: &mut Vec<u32>, n: usize, next_id: &mut u32, out: &mut Vec<Instruction>)
    ensures
        (emit_state(*final(next_id), final(out)@), final(regs)@) == padded(
            emit_state(*old(next_id), old(out)@),
            old(regs)@,
            n as nat,
        ),
{
    let ghost goal = padded(emit_state(*next_id, out@), regs@, n as nat);
    while regs.len() < n
        invariant
            goal == padded(emit_state(*next_id, out@), regs@, n as nat),
        decreases n - regs.len(),
    {
        let zero: u32 = bits_reg(ZERO, next_id, out);
        regs.push(zero);
    }
}

} // verus!
