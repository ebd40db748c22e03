//! The registers of lowered programs: in every function each register is set once, and
//! before it is used.

use crate::block::{
    bind_iteration, fired_of, loop_controlled, loop_plain, lower_jump, lower_let, lower_loop,
    lower_stmt, lower_stmts, range_count, Block, Locals, Loop,
};
use crate::eir::{ComponentRefView, ComponentView, Opcode, Real, ValueType, ONE, ZERO};
use crate::emit::{
    at, bits_of, blend_of, const_of, effect_of, known_of, op_of, or_gate_of, padded, result_of,
    select_bool_of, test_of, truthy_of, unless_of, Emit,
};
use crate::expr::{controlled, ExprView, LetStmtView, PropKind, Relation};
use crate::lower::{
    builtin, callee, field_dim, lower_builtin, lower_expr_spec, lower_field, lower_name_spec,
    lower_range, named_slot, noise_of, nth, relation_opcode, vector_arity, vector_of, vector_term,
    Builtin,
};
use crate::names::{assoc_get, assoc_insert, law_insert_then_get};
use crate::numbering::{
    after, group_code, group_emitted, has, has_all, has_some, lemma_call, lemma_effect, lemma_known,
    lemma_padded, lemma_result, tidy, yields,
};
use crate::scope::{entity_of, prop_reg, ref_reg, reg_get, slot_reg, CtxView, PartsView};
use crate::text::find;
use vstd::prelude::*;

verus! {

broadcast use group_code;

/// Whether every register of a local may be used.
pub open spec fn knows_locals(locals: Locals, s: Emit, first: nat) -> bool {
    forall|name: Seq<char>| has_some(s, first, #[trigger] assoc_get(locals, name))
}

/// Whether every register of a property may be used.
pub open spec fn knows_keys(regs: Seq<(u128, PropKind, u32)>, s: Emit, first: nat) -> bool {
    forall|id: u128, kind: PropKind| has_some(s, first, #[trigger] reg_get(regs, id, kind))
}

/// Whether every register that stays fixed over a rule may be used.
pub open spec fn knows_parts(p: PartsView, s: Emit, first: nat) -> bool {
    &&& has_all(s, first, p.slot_regs)
    &&& knows_keys(p.ref_regs, s, first)
    &&& knows_keys(p.prop_regs, s, first)
}

/// Whether every register that a context names may be used.
pub open spec fn knows(c: CtxView, s: Emit, first: nat) -> bool {
    knows_parts(c.parts, s, first) && knows_locals(c.locals, s, first)
}

pub proof fn lemma_knows(c: CtxView, s: Emit, t: Emit, first: nat)
    requires
        knows(c, s, first),
        after(s, t, first),
    ensures
        knows(c, t, first),
{
}

pub proof fn lemma_range(args: Seq<ExprView>, from: nat, to: nat, c: CtxView, s: Emit, first: nat)
    requires
        tidy(s, first),
        knows(c, s, first),
    ensures
        ({
            let (t, regs) = lower_range(args, from, to, c, s);
            tidy(t, first) && has_all(t, first, regs) && after(s, t, first)
        }),
    decreases args, 0nat, to,
{
    if to <= from || from >= args.len() {
    } else if to > args.len() {
        lemma_range(args, from, args.len(), c, s, first);
    } else {
        lemma_range(args, from, (to - 1) as nat, c, s, first);
        let (s1, regs) = lower_range(args, from, (to - 1) as nat, c, s);
        lemma_knows(c, s, s1, first);
        lemma_expr(args[to - 1], c, s1, first);
    }
}

proof fn lemma_nth(regs: Seq<u32>, i: int, s: Emit, first: nat)
    requires
        0 <= i < regs.len(),
        has_all(s, first, regs),
    ensures
        has(s, first, nth(regs, i)),
{
    assert(has(s, first, regs[i]));
}

proof fn lemma_packed(j: u32, k: u32, height: u32, s: Emit, first: nat)
    requires
        tidy(s, first),
        has(s, first, j),
        has(s, first, k),
    ensures
        ({
            let (s1, h) = const_of(s, Real::Nat(height as u64));
            let (s2, kt) = op_of(s1, Opcode::Mul, seq![k, h]);
            yields(s, op_of(s2, Opcode::Add, seq![j, kt]), first)
        }),
{
    broadcast use group_emitted;

}

proof fn lemma_cell(
    cell: (u32, u32),
    v: u32,
    target: Option<ComponentRefView>,
    s: Emit,
    first: nat,
)
    requires
        tidy(s, first),
        has(s, first, cell.0),
        has(s, first, cell.1),
        has(s, first, v),
    ensures
        yields(
            s,
            bits_of(
                effect_of(s, Opcode::WriteFieldCell, seq![cell.0, cell.1, v], target),
                ZERO,
            ),
            first,
        ),
        yields(
            s,
            result_of(
                s,
                Opcode::ReadFieldCell,
                ValueType::F64,
                seq![cell.0, cell.1],
                None,
                target,
            ),
            first,
        ),
        yields(
            s,
            result_of(
                s,
                Opcode::FieldLaplacian,
                ValueType::F64,
                seq![cell.0, cell.1],
                None,
                target,
            ),
            first,
        ),
{
    broadcast use group_emitted;

}

#[verifier::rlimit(40)]
proof fn lemma_field(
    kind: Builtin,
    field: Seq<char>,
    args: Seq<ExprView>,
    c: CtxView,
    s: Emit,
    first: nat,
)
    requires
        tidy(s, first),
        knows(c, s, first),
    ensures
        yields(s, lower_field(kind, field, args, c, s), first),
    decreases args, 1nat, 2nat,
{
    let (width, height) = field_dim(c, field);
    let target = Some(at(0, ComponentView::Field(field), width));
    let indices = if kind == Builtin::FieldSet {
        args.len() - 2
    } else {
        args.len() - 1
    };
    lemma_range(args, 1, 3, c, s, first);
    let (s0, given) = lower_range(args, 1, 3, c, s);
    lemma_padded(s0, first, given, 2);
    let (s1, ij) = padded(s0, given, 2);
    lemma_knows(c, s, s1, first);
    lemma_nth(ij, 0, s1, first);
    lemma_nth(ij, 1, s1, first);
    let ri = nth(ij, 0);
    lemma_range(args, 3, 4, c, s1, first);
    let (sk, last) = lower_range(args, 3, 4, c, s1);
    lemma_padded(sk, first, last, 1);
    let (s2, k) = padded(sk, last, 1);
    lemma_nth(k, 0, s2, first);
    lemma_packed(nth(ij, 1), nth(k, 0), height, s2, first);
    let (s3, rj) = if indices == 3 {
        let (s3, h) = const_of(s2, Real::Nat(height as u64));
        let (s4, kt) = op_of(s3, Opcode::Mul, seq![nth(k, 0), h]);
        op_of(s4, Opcode::Add, seq![nth(ij, 1), kt])
    } else {
        (s1, nth(ij, 1))
    };
    assert(yields(s1, (s3, rj), first));
    lemma_knows(c, s1, s3, first);
    if kind == Builtin::FieldSet {
        lemma_range(args, (args.len() - 1) as nat, args.len(), c, s3, first);
        let (sv, value) = lower_range(args, (args.len() - 1) as nat, args.len(), c, s3);
        lemma_padded(sv, first, value, 1);
        let (s4, v) = padded(sv, value, 1);
        lemma_nth(v, 0, s4, first);
        lemma_cell((ri, rj), nth(v, 0), target, s4, first);
    } else {
        lemma_cell((ri, rj), rj, target, s3, first);
    }
}

proof fn lemma_noise(s: Emit, first: nat)
    requires
        tidy(s, first),
    ensures
        yields(s, noise_of(s), first),
{
    broadcast use group_emitted;

}

proof fn lemma_vector_term(kind: Builtin, comps: Seq<u32>, i: int, s: Emit, first: nat)
    requires
        tidy(s, first),
        has_all(s, first, comps),
        0 <= i < 3,
        comps.len() >= vector_arity(kind),
    ensures
        yields(s, vector_term(s, kind, comps, i), first),
{
    lemma_nth(comps, i, s, first);
    if kind != Builtin::VectorLength {
        lemma_nth(comps, i + 3, s, first);
    }
    broadcast use group_emitted;

}

proof fn lemma_vector(kind: Builtin, comps: Seq<u32>, s: Emit, first: nat)
    requires
        tidy(s, first),
        has_all(s, first, comps),
        comps.len() >= vector_arity(kind),
    ensures
        yields(s, vector_of(s, kind, comps), first),
{
    lemma_vector_term(kind, comps, 0, s, first);
    let (s1, a) = vector_term(s, kind, comps, 0);
    lemma_vector_term(kind, comps, 1, s1, first);
    let (s2, b) = vector_term(s1, kind, comps, 1);
    lemma_vector_term(kind, comps, 2, s2, first);
    let (s3, c) = vector_term(s2, kind, comps, 2);
    let (s4, sum) = op_of(s3, Opcode::Add, seq![a, b]);
    let (s5, total) = op_of(s4, Opcode::Add, seq![sum, c]);
    assert(yields(s3, (s5, total), first) && yields(
        s5,
        op_of(s5, Opcode::Sqrt, seq![total]),
        first,
    )) by {
        broadcast use group_emitted;

    }
}

proof fn lemma_builtin(kind: Builtin, args: Seq<ExprView>, c: CtxView, s: Emit, first: nat)
    requires
        tidy(s, first),
        knows(c, s, first),
    ensures
        yields(s, lower_builtin(kind, args, c, s), first),
    decreases args, 1nat, 3nat,
{
    match kind {
        Builtin::If => {
            lemma_range(args, 0, 3, c, s, first);
            let (s0, given) = lower_range(args, 0, 3, c, s);
            lemma_padded(s0, first, given, 3);
            let (s1, regs) = padded(s0, given, 3);
            lemma_nth(regs, 0, s1, first);
            lemma_nth(regs, 1, s1, first);
            lemma_nth(regs, 2, s1, first);
            broadcast use lemma_result;

        },
        Builtin::Extremum(opcode) => {
            lemma_range(args, 0, 2, c, s, first);
            let (s0, given) = lower_range(args, 0, 2, c, s);
            lemma_padded(s0, first, given, 2);
            let (s1, regs) = padded(s0, given, 2);
            lemma_nth(regs, 0, s1, first);
            lemma_nth(regs, 1, s1, first);
            broadcast use lemma_result;

        },
        Builtin::Emit => {
            lemma_range(args, 0, 2, c, s, first);
            let (s0, given) = lower_range(args, 0, 2, c, s);
            lemma_padded(s0, first, given, 2);
            let (s1, regs) = padded(s0, given, 2);
            lemma_nth(regs, 0, s1, first);
            lemma_nth(regs, 1, s1, first);
            broadcast use {lemma_result, lemma_effect};

        },
        Builtin::Random | Builtin::Active => {
            broadcast use lemma_result;

        },
        Builtin::Schedule(_) | Builtin::Query(_) | Builtin::Plain(_) => {
            lemma_range(args, 0, args.len(), c, s, first);
            broadcast use lemma_result;

        },
        Builtin::Noise => {
            lemma_noise(s, first);
        },
        Builtin::VectorLength | Builtin::VectorDot | Builtin::VectorDistance => {
            lemma_range(args, 0, args.len(), c, s, first);
            let (s0, given) = lower_range(args, 0, args.len(), c, s);
            lemma_padded(s0, first, given, vector_arity(kind));
            let (s1, regs) = padded(s0, given, vector_arity(kind));
            lemma_vector(kind, regs, s1, first);
        },
        Builtin::FieldGet | Builtin::FieldLaplacian | Builtin::FieldSet => {
            broadcast use lemma_result;

            if args.len() > 0 {
                if let ExprView::Name(field) = args[0] {
                    lemma_field(kind, field, args, c, s, first);
                }
            }
        },
    }
}

pub proof fn lemma_select_bool(s: Emit, cond: u32, first: nat)
    requires
        tidy(s, first),
        has(s, first, cond),
    ensures
        yields(s, select_bool_of(s, cond), first),
{
    broadcast use group_emitted;

}

pub proof fn lemma_truthy(s: Emit, reg: u32, first: nat)
    requires
        tidy(s, first),
        has(s, first, reg),
    ensures
        yields(s, truthy_of(s, reg), first),
{
    broadcast use group_emitted;

    let (s1, zero) = bits_of(s, ZERO);
    let (s2, cond) = test_of(s1, Opcode::Ne, seq![reg, zero]);
    lemma_select_bool(s2, cond, first);
}

proof fn lemma_logic(e: ExprView, a: ExprView, b: ExprView, c: CtxView, s: Emit, first: nat)
    requires
        tidy(s, first),
        e == ExprView::And(Box::new(a), Box::new(b)) || e == ExprView::Or(
            Box::new(a),
            Box::new(b),
        ),
        ({
            let (s1, ra) = lower_expr_spec(a, c, s);
            yields(s, (s1, ra), first) && yields(s1, lower_expr_spec(b, c, s1), first)
        }),
    ensures
        yields(s, lower_expr_spec(e, c, s), first),
{
    let (s1, ra) = lower_expr_spec(a, c, s);
    let (s2, rb) = lower_expr_spec(b, c, s1);
    lemma_truthy(s2, ra, first);
    let (s3, na) = truthy_of(s2, ra);
    lemma_truthy(s3, rb, first);
    let (s4, nb) = truthy_of(s3, rb);
    assert(yields(s, op_of(s4, Opcode::Mul, seq![na, nb]), first)) by {
        broadcast use group_emitted;

    }
    let (s5, one) = bits_of(s4, ONE);
    let (s6, not_a) = op_of(s5, Opcode::Sub, seq![one, na]);
    let (s7, not_b) = op_of(s6, Opcode::Sub, seq![one, nb]);
    let (s8, neither) = op_of(s7, Opcode::Mul, seq![not_a, not_b]);
    assert(yields(s, op_of(s8, Opcode::Sub, seq![one, neither]), first)) by {
        broadcast use group_emitted;

    }
}

proof fn lemma_comparison(
    op: Relation,
    a: ExprView,
    b: ExprView,
    c: CtxView,
    s: Emit,
    first: nat,
)
    requires
        tidy(s, first),
        ({
            let (s1, ra) = lower_expr_spec(a, c, s);
            yields(s, (s1, ra), first) && yields(s1, lower_expr_spec(b, c, s1), first)
        }),
    ensures
        yields(
            s,
            lower_expr_spec(ExprView::Compare(op, Box::new(a), Box::new(b)), c, s),
            first,
        ),
{
    broadcast use group_emitted;

    let (s1, ra) = lower_expr_spec(a, c, s);
    let (s2, rb) = lower_expr_spec(b, c, s1);
    let (s3, cond) = test_of(s2, relation_opcode(op), seq![ra, rb]);
    lemma_select_bool(s3, cond, first);
}

pub proof fn lemma_name(name: Seq<char>, c: CtxView, s: Emit, first: nat)
    requires
        tidy(s, first),
        knows(c, s, first),
    ensures
        yields(s, lower_name_spec(name, c, s), first),
{
    let dot = find(name, '.');
    if assoc_get(c.parts.state_names, name) is Some {
        lemma_slot(c, assoc_get(c.parts.state_names, name)->0, s, first);
    }
    let id = entity_of(c, name.take(dot as int));
    let slot = match named_slot(name, c.parts.scope.state_names_by_id, id) {
        Some(i) => i,
        None => 0,
    };
    lemma_known(s, first, ref_reg(c, id, slot));
    broadcast use group_emitted;

}

pub proof fn lemma_slot(c: CtxView, slot: usize, s: Emit, first: nat)
    requires
        tidy(s, first),
        knows(c, s, first),
    ensures
        yields(s, known_of(s, slot_reg(c, slot)), first),
{
    if slot < c.parts.slot_regs.len() {
        assert(has(s, first, c.parts.slot_regs[slot as int]));
    }
    lemma_known(s, first, slot_reg(c, slot));
}

/// Lowering an expression keeps code orderly.
pub proof fn lemma_expr(e: ExprView, c: CtxView, s: Emit, first: nat)
    requires
        tidy(s, first),
        knows(c, s, first),
    ensures
        yields(s, lower_expr_spec(e, c, s), first),
    decreases e, 0nat, 0nat,
{
    match e {
        ExprView::Const(_) | ExprView::Time => {
            broadcast use group_emitted;

        },
        ExprView::Slot(i) => {
            lemma_slot(c, i, s, first);
        },
        ExprView::Ref(name, slot) => {
            lemma_known(s, first, ref_reg(c, entity_of(c, name), slot));
        },
        ExprView::PropRef(name, kind) => {
            lemma_known(s, first, prop_reg(c, entity_of(c, name), kind));
        },
        ExprView::Name(name) => {
            lemma_name(name, c, s, first);
        },
        ExprView::SlotDyn(x) => {
            broadcast use group_emitted;

            lemma_expr(*x, c, s, first);
        },
        ExprView::Neg(x) => {
            broadcast use group_emitted;

            lemma_expr(*x, c, s, first);
        },
        ExprView::Not(x) => {
            broadcast use group_emitted;

            lemma_expr(*x, c, s, first);
            let (s1, ra) = lower_expr_spec(*x, c, s);
            let (s2, zero) = bits_of(s1, ZERO);
            let (s3, cond) = test_of(s2, Opcode::Eq, seq![ra, zero]);
            lemma_select_bool(s3, cond, first);
        },
        ExprView::Arith(_, a, b) => {
            broadcast use group_emitted;

            lemma_expr(*a, c, s, first);
            let (s1, ra) = lower_expr_spec(*a, c, s);
            lemma_knows(c, s, s1, first);
            lemma_expr(*b, c, s1, first);
        },
        ExprView::Compare(op, a, b) => {
            lemma_expr(*a, c, s, first);
            let (s1, ra) = lower_expr_spec(*a, c, s);
            lemma_knows(c, s, s1, first);
            lemma_expr(*b, c, s1, first);
            lemma_comparison(op, *a, *b, c, s, first);
        },
        ExprView::And(a, b) => {
            lemma_expr(*a, c, s, first);
            let (s1, ra) = lower_expr_spec(*a, c, s);
            lemma_knows(c, s, s1, first);
            lemma_expr(*b, c, s1, first);
            lemma_logic(e, *a, *b, c, s, first);
        },
        ExprView::Or(a, b) => {
            lemma_expr(*a, c, s, first);
            let (s1, ra) = lower_expr_spec(*a, c, s);
            lemma_knows(c, s, s1, first);
            lemma_expr(*b, c, s1, first);
            lemma_logic(e, *a, *b, c, s, first);
        },
        ExprView::Call(name, args) => {
            lemma_range(args, 0, args.len(), c, s, first);
            match callee(name, c) {
                Some(target) => {
                    let (s1, regs) = lower_range(args, 0, args.len(), c, s);
                    lemma_call(s1, first, target as u32, regs);
                },
                None => {
                    lemma_builtin(builtin(name), args, c, s, first);
                },
            }
        },
    }
}

pub proof fn lemma_bound(locals: Locals, name: Seq<char>, r: u32, s: Emit, first: nat)
    requires
        knows_locals(locals, s, first),
        has(s, first, r),
    ensures
        knows_locals(assoc_insert(locals, name, r), s, first),
{
    assert forall|other: Seq<char>|
        has_some(
            s,
            first,
            #[trigger] assoc_get(assoc_insert(locals, name, r), other),
        ) by {
        law_insert_then_get(locals, name, r, other);
    }
}

proof fn lemma_or_gate(a: Option<u32>, b: u32, s: Emit, first: nat)
    requires
        tidy(s, first),
        has_some(s, first, a),
        has(s, first, b),
    ensures
        yields(s, or_gate_of(s, a, b), first),
{
    broadcast use group_emitted;

}

proof fn lemma_unless(gate: Option<u32>, skip: u32, s: Emit, first: nat)
    requires
        tidy(s, first),
        has_some(s, first, gate),
        has(s, first, skip),
    ensures
        yields(s, unless_of(s, gate, skip), first),
{
    broadcast use group_emitted;

}

proof fn lemma_blend(prev: u32, gate: u32, value: u32, s: Emit, first: nat)
    requires
        tidy(s, first),
        has(s, first, prev),
        has(s, first, gate),
        has(s, first, value),
    ensures
        yields(s, blend_of(s, prev, gate, value), first),
{
    broadcast use group_emitted;

}

/// Whether code with its locals is tidy, behind a given state.
pub open spec fn keeps(s: Emit, done: (Emit, Locals), first: nat) -> bool {
    tidy(done.0, first) && after(s, done.0, first) && knows_locals(done.1, done.0, first)
}

proof fn lemma_bind(
    index: Option<(Seq<char>, i64)>,
    k: nat,
    run: Option<u32>,
    p: PartsView,
    s: Emit,
    locals: Locals,
    first: nat,
)
    requires
        tidy(s, first),
        knows_parts(p, s, first),
        knows_locals(locals, s, first),
        has_some(s, first, run),
    ensures
        keeps(s, bind_iteration(index, k, run, p, s, locals), first),
{
    if let Some((name, lo)) = index {
        let (s1, lit) = const_of(s, Real::Int((lo + k) as i64));
        assert(yields(s, (s1, lit), first)) by {
            broadcast use lemma_result;

        }
        let ctx = CtxView { parts: p, locals };
        lemma_knows(ctx, s, s1, first);
        match run {
            None => {
                lemma_bound(locals, name, lit, s1, first);
            },
            Some(r) => {
                lemma_expr(ExprView::Name(name), ctx, s1, first);
                let (s2, prev) = lower_expr_spec(ExprView::Name(name), ctx, s1);
                lemma_blend(prev, r, lit, s2, first);
                let (s3, new) = blend_of(s2, prev, r, lit);
                lemma_knows(ctx, s1, s3, first);
                lemma_bound(locals, name, new, s3, first);
            },
        }
    }
}

/// Whether a block is tidy, behind a given state.
pub open spec fn sound(s: Emit, b: Block, first: nat) -> bool {
    &&& tidy(b.s, first)
    &&& after(s, b.s, first)
    &&& knows_locals(b.locals, b.s, first)
    &&& has_some(b.s, first, b.skip)
    &&& has_some(b.s, first, b.broke)
}

proof fn lemma_let(
    name: Seq<char>,
    e: ExprView,
    run: Option<u32>,
    p: PartsView,
    b: Block,
    first: nat,
)
    requires
        sound(b.s, b, first),
        knows_parts(p, b.s, first),
        has_some(b.s, first, run),
    ensures
        sound(b.s, lower_let(name, e, run, p, b), first),
{
    let ctx = CtxView { parts: p, locals: b.locals };
    lemma_expr(e, ctx, b.s, first);
    let (s1, computed) = lower_expr_spec(e, ctx, b.s);
    lemma_knows(ctx, b.s, s1, first);
    match run {
        None => {
            lemma_bound(b.locals, name, computed, s1, first);
        },
        Some(r) => {
            if let Some(sk) = b.skip {
                lemma_unless(Some(r), sk, s1, first);
            }
            let (s2, g) = match b.skip {
                None => (s1, r),
                Some(sk) => unless_of(s1, Some(r), sk),
            };
            lemma_knows(ctx, s1, s2, first);
            lemma_expr(ExprView::Name(name), ctx, s2, first);
            let (s3, prev) = lower_expr_spec(ExprView::Name(name), ctx, s2);
            lemma_blend(prev, g, computed, s3, first);
            let (s4, new) = blend_of(s3, prev, g, computed);
            lemma_knows(ctx, s2, s4, first);
            lemma_bound(b.locals, name, new, s4, first);
        },
    }
}

proof fn lemma_fired(
    cond: Option<ExprView>,
    run: Option<u32>,
    skip: Option<u32>,
    ctx: CtxView,
    s: Emit,
    first: nat,
)
    requires
        tidy(s, first),
        knows(ctx, s, first),
        has_some(s, first, run),
        has_some(s, first, skip),
    ensures
        yields(s, fired_of(cond, run, skip, ctx, s), first),
{
    let (s1, c) = match cond {
        Some(e) => {
            let (s1, r) = lower_expr_spec(e, ctx, s);
            truthy_of(s1, r)
        },
        None => bits_of(s, ONE),
    };
    assert(yields(s, (s1, c), first)) by {
        match cond {
            Some(e) => {
                lemma_expr(e, ctx, s, first);
                let (s1, r) = lower_expr_spec(e, ctx, s);
                lemma_truthy(s1, r, first);
            },
            None => {
                broadcast use lemma_result;

            },
        }
    }
    broadcast use lemma_result;

}

proof fn lemma_jump(
    cond: Option<ExprView>,
    is_break: bool,
    past: Option<u32>,
    run: Option<u32>,
    p: PartsView,
    b: Block,
    first: nat,
)
    requires
        sound(b.s, b, first),
        knows_parts(p, b.s, first),
        has_some(b.s, first, past),
        has_some(b.s, first, run),
    ensures
        sound(b.s, lower_jump(cond, is_break, past, run, p, b), first),
{
    let ctx = CtxView { parts: p, locals: b.locals };
    lemma_fired(cond, run, past, ctx, b.s, first);
    let (s1, fired) = fired_of(cond, run, past, ctx, b.s);
    lemma_or_gate(b.skip, fired, s1, first);
    let (s2, skip) = or_gate_of(s1, b.skip, fired);
    lemma_or_gate(b.broke, fired, s2, first);
    let (s3, broke) = or_gate_of(s2, b.broke, fired);
    lemma_knows(ctx, b.s, s2, first);
    lemma_knows(ctx, b.s, s3, first);
}

proof fn lemma_plain_loop(
    body: Seq<LetStmtView>,
    index: Option<(Seq<char>, i64)>,
    k: nat,
    run: Option<u32>,
    p: PartsView,
    s: Emit,
    locals: Locals,
    first: nat,
)
    requires
        tidy(s, first),
        knows_parts(p, s, first),
        knows_locals(locals, s, first),
        has_some(s, first, run),
    ensures
        keeps(s, loop_plain(body, index, k, run, p, s, locals), first),
    decreases body, 1nat, k,
{
    if k > 0 {
        lemma_plain_loop(body, index, (k - 1) as nat, run, p, s, locals, first);
        let (s1, locals1) = loop_plain(body, index, (k - 1) as nat, run, p, s, locals);
        lemma_bind(index, (k - 1) as nat, run, p, s1, locals1, first);
        let (s2, locals2) = bind_iteration(index, (k - 1) as nat, run, p, s1, locals1);
        lemma_stmts(body, body.len(), run, p, s2, locals2, first);
    }
}

/// Whether part of a loop is tidy, behind a given state.
pub open spec fn sound_loop(s: Emit, l: Loop, first: nat) -> bool {
    &&& tidy(l.s, first)
    &&& after(s, l.s, first)
    &&& knows_locals(l.locals, l.s, first)
    &&& has(l.s, first, l.run)
    &&& has_some(l.s, first, l.broke)
}

proof fn lemma_controlled_loop(
    body: Seq<LetStmtView>,
    index: Option<(Seq<char>, i64)>,
    k: nat,
    run: u32,
    p: PartsView,
    s: Emit,
    locals: Locals,
    first: nat,
)
    requires
        tidy(s, first),
        knows_parts(p, s, first),
        knows_locals(locals, s, first),
        has(s, first, run),
    ensures
        sound_loop(s, loop_controlled(body, index, k, run, p, s, locals), first),
    decreases body, 1nat, k,
{
    if k > 0 {
        lemma_controlled_loop(body, index, (k - 1) as nat, run, p, s, locals, first);
        let l = loop_controlled(body, index, (k - 1) as nat, run, p, s, locals);
        if let Some(b) = l.broke {
            lemma_unless(Some(l.run), b, l.s, first);
        }
        let (s1, run_k) = match l.broke {
            None => (l.s, l.run),
            Some(b) => unless_of(l.s, Some(l.run), b),
        };
        lemma_bind(index, (k - 1) as nat, Some(run_k), p, s1, l.locals, first);
        let (s2, locals2) = bind_iteration(index, (k - 1) as nat, Some(run_k), p, s1, l.locals);
        lemma_stmts(body, body.len(), Some(run_k), p, s2, locals2, first);
        let b = lower_stmts(body, body.len(), Some(run_k), p, s2, locals2);
        if let Some(bb) = b.broke {
            lemma_or_gate(l.broke, bb, b.s, first);
        }
    }
}

#[verifier::rlimit(60)]
proof fn lemma_loop(
    body: Seq<LetStmtView>,
    index: Option<(Seq<char>, i64)>,
    count: nat,
    run: Option<u32>,
    p: PartsView,
    b: Block,
    first: nat,
)
    requires
        sound(b.s, b, first),
        knows_parts(p, b.s, first),
        has_some(b.s, first, run),
    ensures
        sound(b.s, lower_loop(body, index, count, run, p, b), first),
    decreases body, 1nat, count + 1,
{
    if let Some(sk) = b.skip {
        lemma_unless(run, sk, b.s, first);
    }
    let (s1, enter) = match b.skip {
        None => (b.s, run),
        Some(sk) => {
            let (s, g) = unless_of(b.s, run, sk);
            (s, Some(g))
        },
    };
    if !controlled(body) {
        lemma_plain_loop(body, index, count, enter, p, s1, b.locals, first);
    } else {
        let (s2, gate) = match enter {
            Some(g) => (s1, g),
            None => bits_of(s1, ONE),
        };
        assert(yields(s1, (s2, gate), first)) by {
            broadcast use lemma_result;

        }
        lemma_controlled_loop(body, index, count, gate, p, s2, b.locals, first);
    }
}

proof fn lemma_stmt(st: LetStmtView, run: Option<u32>, p: PartsView, b: Block, first: nat)
    requires
        sound(b.s, b, first),
        knows_parts(p, b.s, first),
        has_some(b.s, first, run),
    ensures
        sound(b.s, lower_stmt(st, run, p, b), first),
    decreases st, 2nat, 0nat,
{
    match st {
        LetStmtView::Let(name, e) => {
            lemma_let(name, e, run, p, b, first);
        },
        LetStmtView::Break(cond) => {
            lemma_jump(cond, true, b.skip, run, p, b, first);
        },
        LetStmtView::Until(e) => {
            lemma_jump(Some(e), true, None, run, p, b, first);
        },
        LetStmtView::Continue(cond) => {
            lemma_jump(cond, false, b.skip, run, p, b, first);
        },
        LetStmtView::Repeat(n, body) => {
            lemma_loop(body, None, n as nat, run, p, b, first);
        },
        LetStmtView::For(name, lo, hi, body) => {
            lemma_loop(body, Some((name, lo)), range_count(lo, hi), run, p, b, first);
        },
    }
}

/// Lowering statements keeps code orderly.
pub proof fn lemma_stmts(
    stmts: Seq<LetStmtView>,
    n: nat,
    run: Option<u32>,
    p: PartsView,
    s: Emit,
    locals: Locals,
    first: nat,
)
    requires
        tidy(s, first),
        knows_parts(p, s, first),
        knows_locals(locals, s, first),
        has_some(s, first, run),
    ensures
        sound(s, lower_stmts(stmts, n, run, p, s, locals), first),
    decreases stmts, 0nat, n,
{
    if n > 0 && n <= stmts.len() {
        lemma_stmts(stmts, (n - 1) as nat, run, p, s, locals, first);
        let b = lower_stmts(stmts, (n - 1) as nat, run, p, s, locals);
        lemma_stmt(stmts[n - 1], run, p, b, first);
    }
}

} // verus!
