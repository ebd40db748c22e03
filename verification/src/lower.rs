//! Lowering of expressions to instructions.

use crate::eir::{
    cr, Component, ComponentRef, ComponentView, Instruction, Opcode, Real, ValueType, NEG_ONE, ONE,
    SIM_TIME, TWO, TWO_PI, ZERO,
};
use crate::emit::{
    at, binary, bits_of, bits_reg, const_of, const_reg, effect_of, emit, emit_effect, emit_state,
    known, known_of, op_of, pad, padded, random_reg, read_of, read_reg, result_of, select,
    select_bool, select_bool_of, test_of, test_reg, truthy, truthy_of, unary, Emit,
};
use crate::expr::{ArithOp, Expr, ExprView, Relation};
use crate::names::{assoc_get, same};
use crate::scope::{entity_of, layout_get, prop_reg, ref_reg, slot_reg, CtxView, LowerCtx};
use crate::text::{dotted, find, find_char, part, qualified, strip, strip_prefix};
use vstd::prelude::*;
use vstd::string::*;

verus! {

/// How a call of a name that is no declared function is lowered.
#[derive(Clone, Copy, Debug, PartialEq, Eq, Structural)]
pub enum Builtin {
    /// All arguments, then one instruction on them.
    Plain(Opcode),
    If,
    /// The smaller (`Lt`) or greater (`Gt`) of two values.
    Extremum(Opcode),
    Random,
    Active,
    Emit,
    /// A probe or push of the event schedule, on all arguments.
    Schedule(Opcode),
    /// A spatial query around the own entity, on all arguments.
    Query(Opcode),
    Noise,
    VectorLength,
    VectorDot,
    VectorDistance,
    FieldGet,
    FieldLaplacian,
    FieldSet,
}

/// The lowering of a name; one that means nothing does nothing.
pub open spec fn builtin(name: Seq<char>) -> Builtin {
    if name == "if"@ {
        Builtin::If
    } else if name == "min"@ {
        Builtin::Extremum(Opcode::Lt)
    } else if name == "max"@ {
        Builtin::Extremum(Opcode::Gt)
    } else if name == "random"@ {
        Builtin::Random
    } else if name == "active"@ {
        Builtin::Active
    } else if name == "emit"@ {
        Builtin::Emit
    } else if name == "at"@ {
        Builtin::Schedule(Opcode::FiredAt)
    } else if name == "periodic"@ {
        Builtin::Schedule(Opcode::FiredEvery)
    } else if name == "schedule"@ {
        Builtin::Schedule(Opcode::ScheduleEvent)
    } else if name == "neighbor_count"@ {
        Builtin::Query(Opcode::NeighborCount)
    } else if name == "nearest_dist"@ {
        Builtin::Query(Opcode::NearestDist)
    } else if name == "neighbor_mean"@ {
        Builtin::Query(Opcode::NeighborMean)
    } else if name == "nearest_dx"@ {
        Builtin::Query(Opcode::NearestOffsetX)
    } else if name == "nearest_dy"@ {
        Builtin::Query(Opcode::NearestOffsetY)
    } else if name == "nearest_dz"@ {
        Builtin::Query(Opcode::NearestOffsetZ)
    } else if name == "noise"@ {
        Builtin::Noise
    } else if name == "vlen"@ {
        Builtin::VectorLength
    } else if name == "vdot"@ {
        Builtin::VectorDot
    } else if name == "vdist"@ {
        Builtin::VectorDistance
    } else if name == "fget"@ {
        Builtin::FieldGet
    } else if name == "flap"@ {
        Builtin::FieldLaplacian
    } else if name == "fset"@ {
        Builtin::FieldSet
    } else {
        Builtin::Plain(function_opcode(name))
    }
}

/// The instruction of an elementary function.
pub open spec fn function_opcode(name: Seq<char>) -> Opcode {
    if name == "sin"@ {
        Opcode::Sin
    } else if name == "cos"@ {
        Opcode::Cos
    } else if name == "exp"@ {
        Opcode::Exp
    } else if name == "ln"@ {
        Opcode::Ln
    } else if name == "sqrt"@ {
        Opcode::Sqrt
    } else if name == "pow"@ {
        Opcode::Pow
    } else if name == "abs"@ {
        Opcode::Abs
    } else if name == "floor"@ {
        Opcode::Floor
    } else if name == "ceil"@ {
        Opcode::Ceil
    } else if name == "round"@ {
        Opcode::Round
    } else if name == "sign"@ {
        Opcode::Sign
    } else if name == "log10"@ {
        Opcode::Log10
    } else if name == "log2"@ {
        Opcode::Log2
    } else if name == "sinh"@ {
        Opcode::Sinh
    } else if name == "cosh"@ {
        Opcode::Cosh
    } else if name == "tanh"@ {
        Opcode::Tanh
    } else if name == "asin"@ {
        Opcode::Asin
    } else if name == "acos"@ {
        Opcode::Acos
    } else if name == "atan"@ {
        Opcode::Atan
    } else if name == "atan2"@ {
        Opcode::Atan2
    } else if name == "hypot"@ {
        Opcode::Hypot
    } else if name == "print"@ {
        Opcode::Print
    } else if name == "last_event"@ {
        Opcode::ReadEvent
    } else {
        Opcode::Nop
    }
}

/// Finds the lowering of a name.
pub fn builtin_of(name: &String) -> (r: Builtin)
    ensures
        r == builtin(name@),
{
    if same(name, "if") {
        Builtin::If
    } else if same(name, "min") {
        Builtin::Extremum(Opcode::Lt)
    } else if same(name, "max") {
        Builtin::Extremum(Opcode::Gt)
    } else if same(name, "random") {
        Builtin::Random
    } else if same(name, "active") {
        Builtin::Active
    } else if same(name, "emit") {
        Builtin::Emit
    } else if same(name, "at") {
        Builtin::Schedule(Opcode::FiredAt)
    } else if same(name, "periodic") {
        Builtin::Schedule(Opcode::FiredEvery)
    } else if same(name, "schedule") {
        Builtin::Schedule(Opcode::ScheduleEvent)
    } else if same(name, "neighbor_count") {
        Builtin::Query(Opcode::NeighborCount)
    } else if same(name, "nearest_dist") {
        Builtin::Query(Opcode::NearestDist)
    } else if same(name, "neighbor_mean") {
        Builtin::Query(Opcode::NeighborMean)
    } else if same(name, "nearest_dx") {
        Builtin::Query(Opcode::NearestOffsetX)
    } else if same(name, "nearest_dy") {
        Builtin::Query(Opcode::NearestOffsetY)
    } else if same(name, "nearest_dz") {
        Builtin::Query(Opcode::NearestOffsetZ)
    } else if same(name, "noise") {
        Builtin::Noise
    } else if same(name, "vlen") {
        Builtin::VectorLength
    } else if same(name, "vdot") {
        Builtin::VectorDot
    } else if same(name, "vdist") {
        Builtin::VectorDistance
    } else if same(name, "fget") {
        Builtin::FieldGet
    } else if same(name, "flap") {
        Builtin::FieldLaplacian
    } else if same(name, "fset") {
        Builtin::FieldSet
    } else {
        Builtin::Plain(opcode_of(name))
    }
}

/// Finds the instruction of an elementary function.
pub fn opcode_of(name: &String) -> (r: Opcode)
    ensures
        r == function_opcode(name@),
{
    if same(name, "sin") {
        Opcode::Sin
    } else if same(name, "cos") {
        Opcode::Cos
    } else if same(name, "exp") {
        Opcode::Exp
    } else if same(name, "ln") {
        Opcode::Ln
    } else if same(name, "sqrt") {
        Opcode::Sqrt
    } else if same(name, "pow") {
        Opcode::Pow
    } else if same(name, "abs") {
        Opcode::Abs
    } else if same(name, "floor") {
        Opcode::Floor
    } else if same(name, "ceil") {
        Opcode::Ceil
    } else if same(name, "round") {
        Opcode::Round
    } else if same(name, "sign") {
        Opcode::Sign
    } else if same(name, "log10") {
        Opcode::Log10
    } else if same(name, "log2") {
        Opcode::Log2
    } else if same(name, "sinh") {
        Opcode::Sinh
    } else if same(name, "cosh") {
        Opcode::Cosh
    } else if same(name, "tanh") {
        Opcode::Tanh
    } else if same(name, "asin") {
        Opcode::Asin
    } else if same(name, "acos") {
        Opcode::Acos
    } else if same(name, "atan") {
        Opcode::Atan
    } else if same(name, "atan2") {
        Opcode::Atan2
    } else if same(name, "hypot") {
        Opcode::Hypot
    } else if same(name, "print") {
        Opcode::Print
    } else if same(name, "last_event") {
        Opcode::ReadEvent
    } else {
        Opcode::Nop
    }
}

/// The instruction of an arithmetic operator.
pub open spec fn arith_opcode(op: ArithOp) -> Opcode {
    match op {
        ArithOp::Add => Opcode::Add,
        ArithOp::Sub => Opcode::Sub,
        ArithOp::Mul => Opcode::Mul,
        ArithOp::Div => Opcode::Div,
        ArithOp::Rem => Opcode::Rem,
    }
}

/// The instruction of a comparison.
pub open spec fn relation_opcode(op: Relation) -> Opcode {
    match op {
        Relation::Lt => Opcode::Lt,
        Relation::Le => Opcode::Le,
        Relation::Gt => Opcode::Gt,
        Relation::Ge => Opcode::Ge,
        Relation::Eq => Opcode::Eq,
        Relation::Ne => Opcode::Ne,
    }
}

/// The register at an index, zero past the end.
pub open spec fn nth(regs: Seq<u32>, i: int) -> u32 {
    if 0 <= i < regs.len() {
        regs[i]
    } else {
        0
    }
}

fn nth_reg(regs: &Vec<u32>, i: usize) -> (r: u32)
    ensures
        r == nth(regs@, i as int),
{
    if i < regs.len() {
        regs[i]
    } else {
        0
    }
}

/// The parameter that a name stands for: itself, or the name within the
/// namespace of the rule.
pub open spec fn parameter(name: Seq<char>, c: CtxView) -> Option<Seq<char>> {
    let scope = c.parts.scope;
    if assoc_get(scope.param_names, name) is Some {
        Some(name)
    } else if scope.namespace.len() > 0 && assoc_get(
        scope.param_names,
        qualified(scope.namespace, name),
    ) is Some {
        Some(qualified(scope.namespace, name))
    } else {
        None
    }
}

/// The slot of another entity that a dotted name stands for: slot zero where the
/// entity declares no such name.
pub open spec fn named_slot(
    name: Seq<char>,
    layouts: Seq<(u128, crate::scope::Layout)>,
    id: u128,
) -> Option<usize> {
    let rest = name.skip(find(name, '.') as int + 1);
    let slot_name = match strip(rest, "state."@) {
        Some(r) => r,
        None => rest,
    };
    match layout_get(layouts, id) {
        Some(l) => assoc_get(l, slot_name),
        None => None,
    }
}

/// The value of a name. In order: a local, a named slot of the own entity (both
/// for names without a dot), a parameter, a named slot of another entity, and
/// else a parameter that is not declared, which reads zero.
pub open spec fn lower_name_spec(name: Seq<char>, c: CtxView, s: Emit) -> (Emit, u32) {
    let dot = find(name, '.');
    let bare = dot == name.len();
    if bare && assoc_get(c.locals, name) is Some {
        (s, assoc_get(c.locals, name)->0)
    } else if bare && assoc_get(c.parts.state_names, name) is Some {
        known_of(s, slot_reg(c, assoc_get(c.parts.state_names, name)->0))
    } else if parameter(name, c) is Some {
        read_of(s, 0, ComponentView::Param(parameter(name, c)->0), 0)
    } else if !bare {
        let id = entity_of(c, name.take(dot as int));
        let slot = match named_slot(name, c.parts.scope.state_names_by_id, id) {
            Some(i) => i,
            None => 0,
        };
        known_of(s, ref_reg(c, id, slot))
    } else {
        read_of(s, 0, ComponentView::Param(name), 0)
    }
}

/// The function that a call names: one of the rule's namespace first.
pub open spec fn callee(name: Seq<char>, c: CtxView) -> Option<u64> {
    let scope = c.parts.scope;
    if scope.namespace.len() > 0 && assoc_get(
        scope.func_ids,
        qualified(scope.namespace, name),
    ) is Some {
        assoc_get(scope.func_ids, qualified(scope.namespace, name))
    } else {
        assoc_get(scope.func_ids, name)
    }
}

/// A standard normal draw from two uniform ones (Box-Muller).
pub open spec fn noise_of(s: Emit) -> (Emit, u32) {
    let (s, u1) = op_of(s, Opcode::Random, Seq::empty());
    let (s, u2) = op_of(s, Opcode::Random, Seq::empty());
    let (s, one) = bits_of(s, ONE);
    let (s, zero) = bits_of(s, ZERO);
    let (s, two) = bits_of(s, TWO);
    let (s, two_pi) = bits_of(s, TWO_PI);
    let (s, m1) = op_of(s, Opcode::Sub, seq![one, u1]);
    let (s, l) = op_of(s, Opcode::Ln, seq![m1]);
    let (s, two_l) = op_of(s, Opcode::Mul, seq![two, l]);
    let (s, pos) = op_of(s, Opcode::Sub, seq![zero, two_l]);
    let (s, mag) = op_of(s, Opcode::Sqrt, seq![pos]);
    let (s, ang) = op_of(s, Opcode::Mul, seq![two_pi, u2]);
    let (s, c) = op_of(s, Opcode::Cos, seq![ang]);
    op_of(s, Opcode::Mul, seq![mag, c])
}

fn noise_reg(next_id: &mut u32, out: &mut Vec<Instruction>) -> (r: u32)
    ensures
        (emit_state(*final(next_id), final(out)@), r) == noise_of(
            emit_state(*old(next_id), old(out)@),
        ),
{
    let u1: u32 = random_reg(next_id, out);
    let u2: u32 = random_reg(next_id, out);
    let one: u32 = bits_reg(ONE, next_id, out);
    let zero: u32 = bits_reg(ZERO, next_id, out);
    let two: u32 = bits_reg(TWO, next_id, out);
    let two_pi: u32 = bits_reg(TWO_PI, next_id, out);
    let m1: u32 = binary(Opcode::Sub, one, u1, next_id, out);
    let l: u32 = unary(Opcode::Ln, m1, next_id, out);
    let two_l: u32 = binary(Opcode::Mul, two, l, next_id, out);
    let pos: u32 = binary(Opcode::Sub, zero, two_l, next_id, out);
    let mag: u32 = unary(Opcode::Sqrt, pos, next_id, out);
    let ang: u32 = binary(Opcode::Mul, two_pi, u2, next_id, out);
    let c: u32 = unary(Opcode::Cos, ang, next_id, out);
    binary(Opcode::Mul, mag, c, next_id, out)
}

/// Three terms of a vector operation, summed: component squares, component
/// products, or squares of component differences; the root of the sum but for
/// the products.
pub open spec fn vector_of(s: Emit, kind: Builtin, comps: Seq<u32>) -> (Emit, u32) {
    let (s, a) = vector_term(s, kind, comps, 0);
    let (s, b) = vector_term(s, kind, comps, 1);
    let (s, c) = vector_term(s, kind, comps, 2);
    let (s, sum) = op_of(s, Opcode::Add, seq![a, b]);
    let (s, total) = op_of(s, Opcode::Add, seq![sum, c]);
    if kind == Builtin::VectorDot {
        (s, total)
    } else {
        op_of(s, Opcode::Sqrt, seq![total])
    }
}

/// The number of components that a vector operation works on.
pub open spec fn vector_arity(kind: Builtin) -> nat {
    if kind == Builtin::VectorLength {
        3
    } else {
        6
    }
}

/// One term of a vector operation.
pub open spec fn vector_term(s: Emit, kind: Builtin, comps: Seq<u32>, i: int) -> (Emit, u32) {
    if kind == Builtin::VectorLength {
        op_of(s, Opcode::Mul, seq![nth(comps, i), nth(comps, i)])
    } else if kind == Builtin::VectorDot {
        op_of(s, Opcode::Mul, seq![nth(comps, i), nth(comps, i + 3)])
    } else {
        let (s1, d) = op_of(s, Opcode::Sub, seq![nth(comps, i), nth(comps, i + 3)]);
        op_of(s1, Opcode::Mul, seq![d, d])
    }
}

fn vector_term_reg(
    kind: Builtin,
    comps: &Vec<u32>,
    i: usize,
    next_id: &mut u32,
    out: &mut Vec<Instruction>,
) -> (r: u32)
    requires
        i < 3,
    ensures
        (emit_state(*final(next_id), final(out)@), r) == vector_term(
            emit_state(*old(next_id), old(out)@),
            kind,
            comps@,
            i as int,
        ),
{
    let a: u32 = nth_reg(comps, i);
    let b: u32 = nth_reg(comps, i + 3);
    if kind == Builtin::VectorLength {
        binary(Opcode::Mul, a, a, next_id, out)
    } else if kind == Builtin::VectorDot {
        binary(Opcode::Mul, a, b, next_id, out)
    } else {
        let d: u32 = binary(Opcode::Sub, a, b, next_id, out);
        binary(Opcode::Mul, d, d, next_id, out)
    }
}

fn vector_reg(
    kind: Builtin,
    comps: &Vec<u32>,
    next_id: &mut u32,
    out: &mut Vec<Instruction>,
) -> (r: u32)
    ensures
        (emit_state(*final(next_id), final(out)@), r) == vector_of(
            emit_state(*old(next_id), old(out)@),
            kind,
            comps@,
        ),
{
    let a: u32 = vector_term_reg(kind, comps, 0, next_id, out);
    let b: u32 = vector_term_reg(kind, comps, 1, next_id, out);
    let c: u32 = vector_term_reg(kind, comps, 2, next_id, out);
    let sum: u32 = binary(Opcode::Add, a, b, next_id, out);
    let total: u32 = binary(Opcode::Add, sum, c, next_id, out);
    if kind == Builtin::VectorDot {
        total
    } else {
        unary(Opcode::Sqrt, total, next_id, out)
    }
}

/// The width and height of a grid field, zero for an unknown one.
pub open spec fn field_dim(c: CtxView, name: Seq<char>) -> (u32, u32) {
    match assoc_get(c.parts.scope.field_dims, name) {
        Some(d) => d,
        None => (0, 0),
    }
}

/// An access to a grid cell. The first argument names the field, which the width
/// accompanies; two indices follow, or three, of which the last two are packed as
/// `j + k * height`; a write has the value as its last argument.
pub open spec fn lower_field(
    kind: Builtin,
    field: Seq<char>,
    args: Seq<ExprView>,
    c: CtxView,
    s: Emit,
) -> (Emit, u32)
    decreases args, 1nat, 2nat,
{
    let (width, height) = field_dim(c, field);
    let target = Some(at(0, ComponentView::Field(field), width));
    let indices = if kind == Builtin::FieldSet {
        args.len() - 2
    } else {
        args.len() - 1
    };
    let (s, ij) = lower_range(args, 1, 3, c, s);
    let (s, ij) = padded(s, ij, 2);
    let ri = nth(ij, 0);
    let (s, rj) = if indices == 3 {
        let (s, k) = lower_range(args, 3, 4, c, s);
        let (s, k) = padded(s, k, 1);
        let (s, h) = const_of(s, Real::Nat(height as u64));
        let (s, kt) = op_of(s, Opcode::Mul, seq![nth(k, 0), h]);
        op_of(s, Opcode::Add, seq![nth(ij, 1), kt])
    } else {
        (s, nth(ij, 1))
    };
    if kind == Builtin::FieldSet {
        let (s, v) = lower_range(args, (args.len() - 1) as nat, args.len(), c, s);
        let (s, v) = padded(s, v, 1);
        let s = effect_of(s, Opcode::WriteFieldCell, seq![ri, rj, nth(v, 0)], target);
        bits_of(s, ZERO)
    } else {
        let opcode = if kind == Builtin::FieldGet {
            Opcode::ReadFieldCell
        } else {
            Opcode::FieldLaplacian
        };
        result_of(s, opcode, ValueType::F64, seq![ri, rj], None, target)
    }
}

/// The values of the arguments from `from` up to `to`, in order.
pub open spec fn lower_range(
    args: Seq<ExprView>,
    from: nat,
    to: nat,
    c: CtxView,
    s: Emit,
) -> (Emit, Seq<u32>)
    decreases args, 0nat, to,
{
    if to <= from || from >= args.len() {
        (s, Seq::empty())
    } else if to > args.len() {
        lower_range(args, from, args.len(), c, s)
    } else {
        let (s1, regs) = lower_range(args, from, (to - 1) as nat, c, s);
        let (s2, r) = lower_expr_spec(args[to - 1], c, s1);
        (s2, regs.push(r))
    }
}

/// A call of a built-in.
pub open spec fn lower_builtin(
    kind: Builtin,
    args: Seq<ExprView>,
    c: CtxView,
    s: Emit,
) -> (Emit, u32)
    decreases args, 1nat, 3nat,
{
    match kind {
        Builtin::If => {
            let (s, regs) = lower_range(args, 0, 3, c, s);
            let (s, regs) = padded(s, regs, 3);
            op_of(s, Opcode::Select, seq![nth(regs, 0), nth(regs, 1), nth(regs, 2)])
        },
        Builtin::Extremum(opcode) => {
            let (s, regs) = lower_range(args, 0, 2, c, s);
            let (s, regs) = padded(s, regs, 2);
            let (s, cond) = test_of(s, opcode, seq![nth(regs, 0), nth(regs, 1)]);
            op_of(s, Opcode::Select, seq![cond, nth(regs, 0), nth(regs, 1)])
        },
        Builtin::Random => op_of(s, Opcode::Random, Seq::empty()),
        Builtin::Active => read_of(s, c.parts.current_entity, ComponentView::Active, 0),
        Builtin::Emit => {
            let (s, regs) = lower_range(args, 0, 2, c, s);
            let (s, regs) = padded(s, regs, 2);
            let s = effect_of(s, Opcode::EmitEvent, seq![nth(regs, 0), nth(regs, 1)], None);
            bits_of(s, ZERO)
        },
        Builtin::Schedule(opcode) => {
            let (s, regs) = lower_range(args, 0, args.len(), c, s);
            op_of(s, opcode, regs)
        },
        Builtin::Query(opcode) => {
            let (s, regs) = lower_range(args, 0, args.len(), c, s);
            result_of(
                s,
                opcode,
                ValueType::F64,
                regs,
                None,
                Some(at(c.parts.current_entity, ComponentView::Transform, 0)),
            )
        },
        Builtin::Noise => noise_of(s),
        Builtin::VectorLength | Builtin::VectorDot | Builtin::VectorDistance => {
            let (s, regs) = lower_range(args, 0, args.len(), c, s);
            let (s, regs) = padded(s, regs, vector_arity(kind));
            vector_of(s, kind, regs)
        },
        Builtin::FieldGet | Builtin::FieldLaplacian | Builtin::FieldSet => {
            if args.len() > 0 {
                match args[0] {
                    ExprView::Name(field) => lower_field(kind, field, args, c, s),
                    _ => bits_of(s, ZERO),
                }
            } else {
                bits_of(s, ZERO)
            }
        },
        Builtin::Plain(opcode) => {
            let (s, regs) = lower_range(args, 0, args.len(), c, s);
            op_of(s, opcode, regs)
        },
    }
}

/// The instructions of an expression and the register of its value.
pub open spec fn lower_expr_spec(e: ExprView, c: CtxView, s: Emit) -> (Emit, u32)
    decreases e, 0nat, 0nat,
{
    match e {
        ExprView::Const(bits) => bits_of(s, bits),
        ExprView::Slot(i) => known_of(s, slot_reg(c, i)),
        ExprView::SlotDyn(i) => {
            let (s, ri) = lower_expr_spec(*i, c, s);
            result_of(
                s,
                Opcode::ReadSlotDyn,
                ValueType::F64,
                seq![ri],
                None,
                Some(at(c.parts.current_entity, ComponentView::State, 0)),
            )
        },
        ExprView::Neg(x) => {
            let (s, rx) = lower_expr_spec(*x, c, s);
            let (s, neg_one) = bits_of(s, NEG_ONE);
            op_of(s, Opcode::Mul, seq![rx, neg_one])
        },
        ExprView::Time => read_of(s, 0, ComponentView::SimTime, SIM_TIME),
        ExprView::Ref(name, slot) => known_of(s, ref_reg(c, entity_of(c, name), slot)),
        ExprView::PropRef(name, kind) => known_of(s, prop_reg(c, entity_of(c, name), kind)),
        ExprView::Name(name) => lower_name_spec(name, c, s),
        ExprView::Arith(op, a, b) => {
            let (s, ra) = lower_expr_spec(*a, c, s);
            let (s, rb) = lower_expr_spec(*b, c, s);
            op_of(s, arith_opcode(op), seq![ra, rb])
        },
        ExprView::Compare(op, a, b) => {
            let (s, ra) = lower_expr_spec(*a, c, s);
            let (s, rb) = lower_expr_spec(*b, c, s);
            let (s, cond) = test_of(s, relation_opcode(op), seq![ra, rb]);
            select_bool_of(s, cond)
        },
        ExprView::And(a, b) => {
            let (s, ra) = lower_expr_spec(*a, c, s);
            let (s, rb) = lower_expr_spec(*b, c, s);
            let (s, na) = truthy_of(s, ra);
            let (s, nb) = truthy_of(s, rb);
            op_of(s, Opcode::Mul, seq![na, nb])
        },
        ExprView::Or(a, b) => {
            let (s, ra) = lower_expr_spec(*a, c, s);
            let (s, rb) = lower_expr_spec(*b, c, s);
            let (s, na) = truthy_of(s, ra);
            let (s, nb) = truthy_of(s, rb);
            let (s, one) = bits_of(s, ONE);
            let (s, not_a) = op_of(s, Opcode::Sub, seq![one, na]);
            let (s, not_b) = op_of(s, Opcode::Sub, seq![one, nb]);
            let (s, neither) = op_of(s, Opcode::Mul, seq![not_a, not_b]);
            op_of(s, Opcode::Sub, seq![one, neither])
        },
        ExprView::Not(a) => {
            let (s, ra) = lower_expr_spec(*a, c, s);
            let (s, zero) = bits_of(s, ZERO);
            let (s, cond) = test_of(s, Opcode::Eq, seq![ra, zero]);
            select_bool_of(s, cond)
        },
        ExprView::Call(name, args) => match callee(name, c) {
            Some(target) => {
                let (s, regs) = lower_range(args, 0, args.len(), c, s);
                op_of(s, Opcode::Call, seq![target as u32] + regs)
            },
            None => lower_builtin(builtin(name), args, c, s),
        },
    }
}

/// The parameter that a name stands for, if any.
fn parameter_of(name: &String, ctx: &LowerCtx<'_>) -> (r: Option<String>)
    ensures
        parameter(name@, ctx@) == (match r {
            Some(p) => Some(p@),
            None => None,
        }),
{
    let scope = ctx.parts.scope;
    if scope.param_names.has(name) {
        Some(name.clone())
    } else if scope.namespace.as_str().is_empty() {
        None
    } else {
        let q: String = dotted(&scope.namespace, name);
        if scope.param_names.has(&q) {
            Some(q)
        } else {
            None
        }
    }
}

/// Finds the slot of another entity that a dotted name stands for.
pub fn named_slot_of(name: &String, layouts: &crate::scope::Layouts, id: u128) -> (r: Option<usize>)
    requires
        find(name@, '.') < name@.len(),
    ensures
        r == named_slot(name@, layouts@, id),
{
    let dot: usize = find_char(name, '.');
    let len: usize = name.as_str().unicode_len();
    let rest: String = part(name, dot + 1, len);
    proof {
        assert(rest@ =~= name@.skip(dot + 1));
    }
    match layouts.get(id) {
        Some(l) => {
            let found = match strip_prefix(&rest, "state.") {
                Some(r) => l.get(&r),
                None => l.get(&rest),
            };
            match found {
                Some(slot) => Some(*slot),
                None => None,
            }
        },
        None => None,
    }
}

/// Lowers a name.
fn lower_name(
    name: &String,
    ctx: &LowerCtx<'_>,
    next_id: &mut u32,
    out: &mut Vec<Instruction>,
) -> (r: u32)
    ensures
        (emit_state(*final(next_id), final(out)@), r) == lower_name_spec(
            name@,
            ctx@,
            emit_state(*old(next_id), old(out)@),
        ),
{
    let dot: usize = find_char(name, '.');
    let len: usize = name.as_str().unicode_len();
    if dot == len {
        if let Some(reg) = ctx.locals.get(name) {
            return *reg;
        }
        if let Some(slot) = ctx.parts.state_names.get(name) {
            return known(ctx.slot(*slot), next_id, out);
        }
    }
    if let Some(canonical) = parameter_of(name, ctx) {
        return read_reg(0, Component::Param(canonical), 0, next_id, out);
    }
    if dot < len {
        let owner: String = part(name, 0, dot);
        proof {
            assert(owner@ =~= name@.take(dot as int));
        }
        let id: u128 = ctx.entity(&owner);
        let slot: usize = match named_slot_of(name, &ctx.parts.scope.state_names_by_id, id) {
            Some(i) => i,
            None => 0,
        };
        return known(ctx.reference(id, slot), next_id, out);
    }
    read_reg(0, Component::Param(name.clone()), 0, next_id, out)
}

/// Finds the declared function that a call names.
fn callee_of(name: &String, ctx: &LowerCtx<'_>) -> (r: Option<u64>)
    ensures
        r == callee(name@, ctx@),
{
    let scope = ctx.parts.scope;
    if !scope.namespace.as_str().is_empty() {
        let q: String = dotted(&scope.namespace, name);
        if let Some(id) = scope.func_ids.get(&q) {
            return Some(*id);
        }
    }
    match scope.func_ids.get(name) {
        Some(id) => Some(*id),
        None => None,
    }
}

fn arith_op(op: ArithOp) -> (r: Opcode)
    ensures
        r == arith_opcode(op),
{
    match op {
        ArithOp::Add => Opcode::Add,
        ArithOp::Sub => Opcode::Sub,
        ArithOp::Mul => Opcode::Mul,
        ArithOp::Div => Opcode::Div,
        ArithOp::Rem => Opcode::Rem,
    }
}

fn relation_op(op: Relation) -> (r: Opcode)
    ensures
        r == relation_opcode(op),
{
    match op {
        Relation::Lt => Opcode::Lt,
        Relation::Le => Opcode::Le,
        Relation::Gt => Opcode::Gt,
        Relation::Ge => Opcode::Ge,
        Relation::Eq => Opcode::Eq,
        Relation::Ne => Opcode::Ne,
    }
}

/// Lowers the arguments from `from` up to `to` in order.
fn lower_args(
    args: &Vec<Expr>,
    from: usize,
    to: usize,
    ctx: &LowerCtx<'_>,
    next_id: &mut u32,
    out: &mut Vec<Instruction>,
) -> (r: Vec<u32>)
    ensures
        (emit_state(*final(next_id), final(out)@), r@) == lower_range(
            crate::expr::expr_views(args@),
            from as nat,
            to as nat,
            ctx@,
            emit_state(*old(next_id), old(out)@),
        ),
    decreases args, 0nat, 0nat,
{
    let ghost views = crate::expr::expr_views(args@);
    let ghost start = emit_state(*next_id, out@);
    let mut regs: Vec<u32> = Vec::new();
    if from >= args.len() || to <= from {
        return regs;
    }
    let end: usize = if to > args.len() {
        args.len()
    } else {
        to
    };
    let mut i: usize = from;
    proof {
        reveal_with_fuel(lower_range, 2);
        assert(lower_range(views, from as nat, from as nat, ctx@, start) == (
            start,
            Seq::<u32>::empty(),
        ));
    }
    while i < end
        invariant
            from <= i <= end <= args.len(),
            views == crate::expr::expr_views(args@),
            (emit_state(*next_id, out@), regs@) == lower_range(
                views,
                from as nat,
                i as nat,
                ctx@,
                start,
            ),
        decreases end - i,
    {
        proof {
            assert(views[i as int] == args@[i as int]@);
        }
        let r: u32 = lower_expr(&args[i], ctx, next_id, out);
        regs.push(r);
        i = i + 1;
    }
    regs
}

/// Lowers an access to a grid cell.
fn lower_field_access(
    kind: Builtin,
    field: &String,
    args: &Vec<Expr>,
    ctx: &LowerCtx<'_>,
    next_id: &mut u32,
    out: &mut Vec<Instruction>,
) -> (r: u32)
    requires
        args@.len() > 0,
    ensures
        (emit_state(*final(next_id), final(out)@), r) == lower_field(
            kind,
            field@,
            crate::expr::expr_views(args@),
            ctx@,
            emit_state(*old(next_id), old(out)@),
        ),
    decreases args, 1nat, 2nat,
{
    let dims: (u32, u32) = match ctx.parts.scope.field_dims.get(field) {
        Some(d) => *d,
        None => (0, 0),
    };
    let target: ComponentRef = cr(0, Component::Field(field.clone()), dims.0);
    let three_d: bool = if kind == Builtin::FieldSet {
        args.len() == 5
    } else {
        args.len() == 4
    };
    let mut ij: Vec<u32> = lower_args(args, 1, 3, ctx, next_id, out);
    pad(&mut ij, 2, next_id, out);
    let ri: u32 = nth_reg(&ij, 0);
    let rj: u32 = if three_d {
        let mut k: Vec<u32> = lower_args(args, 3, 4, ctx, next_id, out);
        pad(&mut k, 1, next_id, out);
        let h: u32 = const_reg(Real::Nat(dims.1 as u64), next_id, out);
        let kt: u32 = binary(Opcode::Mul, nth_reg(&k, 0), h, next_id, out);
        binary(Opcode::Add, nth_reg(&ij, 1), kt, next_id, out)
    } else {
        nth_reg(&ij, 1)
    };
    if kind == Builtin::FieldSet {
        let mut v: Vec<u32> = lower_args(args, args.len() - 1, args.len(), ctx, next_id, out);
        pad(&mut v, 1, next_id, out);
        let operands: Vec<u32> = vec![ri, rj, nth_reg(&v, 0)];
        proof {
            assert(operands@ =~= seq![ri, rj, nth(v@, 0)]);
        }
        emit_effect(Opcode::WriteFieldCell, operands, Some(target), out);
        bits_reg(ZERO, next_id, out)
    } else {
        let opcode: Opcode = if kind == Builtin::FieldGet {
            Opcode::ReadFieldCell
        } else {
            Opcode::FieldLaplacian
        };
        let operands: Vec<u32> = vec![ri, rj];
        proof {
            assert(operands@ =~= seq![ri, rj]);
        }
        emit(opcode, ValueType::F64, operands, None, Some(target), next_id, out)
    }
}

/// Lowers a call of a built-in.
fn lower_builtin_call(
    kind: Builtin,
    args: &Vec<Expr>,
    ctx: &LowerCtx<'_>,
    next_id: &mut u32,
    out: &mut Vec<Instruction>,
) -> (r: u32)
    ensures
        (emit_state(*final(next_id), final(out)@), r) == lower_builtin(
            kind,
            crate::expr::expr_views(args@),
            ctx@,
            emit_state(*old(next_id), old(out)@),
        ),
    decreases args, 1nat, 3nat,
{
    match kind {
        Builtin::If => {
            let mut regs: Vec<u32> = lower_args(args, 0, 3, ctx, next_id, out);
            pad(&mut regs, 3, next_id, out);
            select(nth_reg(&regs, 0), nth_reg(&regs, 1), nth_reg(&regs, 2), next_id, out)
        },
        Builtin::Extremum(opcode) => {
            let mut regs: Vec<u32> = lower_args(args, 0, 2, ctx, next_id, out);
            pad(&mut regs, 2, next_id, out);
            let a: u32 = nth_reg(&regs, 0);
            let b: u32 = nth_reg(&regs, 1);
            let cond: u32 = test_reg(opcode, a, b, next_id, out);
            select(cond, a, b, next_id, out)
        },
        Builtin::Random => random_reg(next_id, out),
        Builtin::Active => read_reg(ctx.parts.current_entity, Component::Active, 0, next_id, out),
        Builtin::Emit => {
            let mut regs: Vec<u32> = lower_args(args, 0, 2, ctx, next_id, out);
            pad(&mut regs, 2, next_id, out);
            let operands: Vec<u32> = vec![nth_reg(&regs, 0), nth_reg(&regs, 1)];
            proof {
                assert(operands@ =~= seq![nth(regs@, 0), nth(regs@, 1)]);
            }
            emit_effect(Opcode::EmitEvent, operands, None, out);
            bits_reg(ZERO, next_id, out)
        },
        Builtin::Schedule(opcode) => {
            let regs: Vec<u32> = lower_args(args, 0, args.len(), ctx, next_id, out);
            emit(opcode, ValueType::F64, regs, None, None, next_id, out)
        },
        Builtin::Query(opcode) => {
            let regs: Vec<u32> = lower_args(args, 0, args.len(), ctx, next_id, out);
            let target: ComponentRef = cr(ctx.parts.current_entity, Component::Transform, 0);
            emit(opcode, ValueType::F64, regs, None, Some(target), next_id, out)
        },
        Builtin::Noise => noise_reg(next_id, out),
        Builtin::VectorLength | Builtin::VectorDot | Builtin::VectorDistance => {
            let mut regs: Vec<u32> = lower_args(args, 0, args.len(), ctx, next_id, out);
            let arity: usize = if kind == Builtin::VectorLength {
                3
            } else {
                6
            };
            pad(&mut regs, arity, next_id, out);
            vector_reg(kind, &regs, next_id, out)
        },
        Builtin::FieldGet | Builtin::FieldLaplacian | Builtin::FieldSet => {
            if args.len() > 0 {
                match &args[0] {
                    Expr::Name(field) => lower_field_access(
                        kind,
                        field,
                        args,
                        ctx,
                        next_id,
                        out,
                    ),
                    _ => bits_reg(ZERO, next_id, out),
                }
            } else {
                bits_reg(ZERO, next_id, out)
            }
        },
        Builtin::Plain(opcode) => {
            let regs: Vec<u32> = lower_args(args, 0, args.len(), ctx, next_id, out);
            emit(opcode, ValueType::F64, regs, None, None, next_id, out)
        },
    }
}

/// Lowers an expression and returns the register of its value.
pub fn lower_expr(
    expr: &Expr,
    ctx: &LowerCtx<'_>,
    next_id: &mut u32,
    out: &mut Vec<Instruction>,
) -> (r: u32)
    ensures
        (emit_state(*final(next_id), final(out)@), r) == lower_expr_spec(
            expr@,
            ctx@,
            emit_state(*old(next_id), old(out)@),
        ),
    decreases expr, 0nat, 0nat,
{
    match expr {
        Expr::Const(bits) => bits_reg(*bits, next_id, out),
        Expr::Slot(i) => known(ctx.slot(*i), next_id, out),
        Expr::SlotDyn(idx) => {
            let ri: u32 = lower_expr(idx, ctx, next_id, out);
            let operands: Vec<u32> = vec![ri];
            proof {
                assert(operands@ =~= seq![ri]);
            }
            let target: ComponentRef = cr(ctx.parts.current_entity, Component::State, 0);
            emit(Opcode::ReadSlotDyn, ValueType::F64, operands, None, Some(target), next_id, out)
        },
        Expr::Neg(x) => {
            let rx: u32 = lower_expr(x, ctx, next_id, out);
            let neg_one: u32 = bits_reg(NEG_ONE, next_id, out);
            binary(Opcode::Mul, rx, neg_one, next_id, out)
        },
        Expr::Time => read_reg(0, Component::SimTime, SIM_TIME, next_id, out),
        Expr::Ref(name, slot) => known(ctx.reference(ctx.entity(name), *slot), next_id, out),
        Expr::PropRef(name, kind) => known(
            ctx.property(ctx.entity(name), *kind),
            next_id,
            out,
        ),
        Expr::Name(name) => lower_name(name, ctx, next_id, out),
        Expr::Arith(op, a, b) => {
            let ra: u32 = lower_expr(a, ctx, next_id, out);
            let rb: u32 = lower_expr(b, ctx, next_id, out);
            binary(arith_op(*op), ra, rb, next_id, out)
        },
        Expr::Compare(op, a, b) => {
            let ra: u32 = lower_expr(a, ctx, next_id, out);
            let rb: u32 = lower_expr(b, ctx, next_id, out);
            let cond: u32 = test_reg(relation_op(*op), ra, rb, next_id, out);
            select_bool(cond, next_id, out)
        },
        Expr::And(a, b) => {
            let ra: u32 = lower_expr(a, ctx, next_id, out);
            let rb: u32 = lower_expr(b, ctx, next_id, out);
            let na: u32 = truthy(ra, next_id, out);
            let nb: u32 = truthy(rb, next_id, out);
            binary(Opcode::Mul, na, nb, next_id, out)
        },
        Expr::Or(a, b) => {
            let ra: u32 = lower_expr(a, ctx, next_id, out);
            let rb: u32 = lower_expr(b, ctx, next_id, out);
            let na: u32 = truthy(ra, next_id, out);
            let nb: u32 = truthy(rb, next_id, out);
            let one: u32 = bits_reg(ONE, next_id, out);
            let not_a: u32 = binary(Opcode::Sub, one, na, next_id, out);
            let not_b: u32 = binary(Opcode::Sub, one, nb, next_id, out);
            let neither: u32 = binary(Opcode::Mul, not_a, not_b, next_id, out);
            binary(Opcode::Sub, one, neither, next_id, out)
        },
        Expr::Not(a) => {
            let ra: u32 = lower_expr(a, ctx, next_id, out);
            let zero: u32 = bits_reg(ZERO, next_id, out);
            let cond: u32 = test_reg(Opcode::Eq, ra, zero, next_id, out);
            select_bool(cond, next_id, out)
        },
        Expr::Call(name, args) => {
            proof {
                assert(expr@->Call_1 =~= crate::expr::expr_views(args@));
            }
            match callee_of(name, ctx) {
                Some(target) => {
                    let mut operands: Vec<u32> = vec![target as u32];
                    let mut regs: Vec<u32> = lower_args(args, 0, args.len(), ctx, next_id, out);
                    let ghost args_regs = regs@;
                    operands.append(&mut regs);
                    proof {
                        assert(operands@ =~= seq![target as u32] + args_regs);
                    }
                    emit(Opcode::Call, ValueType::F64, operands, None, None, next_id, out)
                },
                None => lower_builtin_call(builtin_of(name), args, ctx, next_id, out),
            }
        },
    }
}

} // verus!
