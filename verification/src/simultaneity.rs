//! Rules act at once: what they read of entities is read before anything is written.

use crate::block::{
    bind_iteration, fired_of, loop_controlled, loop_plain, lower_jump, lower_let, lower_loop,
    lower_stmt, lower_stmts, range_count, Block, Locals,
};
use crate::bodies::{linear_lowered, linear_rows, row_count, row_terms};
use crate::eir::{InstructionView, ONE, Opcode, Real, ZERO};
use crate::emit::{
    bits_of, const_of, op_of, or_gate_of, padded, read_of, resumed, truthy_of, unless_of, Emit,
};
use crate::expr::{controlled, ExprView, LetStmtView};
use crate::lower::{
    builtin, callee, field_dim, lower_builtin, lower_expr_spec, lower_field, lower_name_spec,
    lower_range, noise_of, nth, vector_arity, vector_of, vector_term, Builtin,
};
use crate::refs::Key;
use crate::rk4::{
    combined, combined_writes, derivatives, held, rk4_flag, rk4_lowered, rk4_slots, rk4_substep,
    rk4_substeps, shifted, stage,
};
use crate::rules::{applies, closed, ended, key_reads, prop_target, slot_reads};
use crate::scope::{layout_of, CtxView, PartsView};
use crate::sensing::{
    adds, group_sensing, lemma_adds_more, lemma_noise_adds, lemma_reads_first, reads_first, senses,
    stores,
};
use crate::update::{
    change_of, dyn_values, dyn_writes, flag_of, opened, past, resolved, rule_refs, rule_values,
    rule_writes, span_cond, update_lowered, update_slots, update_substep, update_substeps, Frame,
    RulesView,
};
use vstd::prelude::*;

verus! {

broadcast use group_sensing;

/// Whether a lowering step writes no entity.
pub open spec fn still(s: Emit, t: Emit) -> bool {
    adds(s.out, t.out, true, false)
}

pub proof fn lemma_range(args: Seq<ExprView>, from: nat, to: nat, c: CtxView, s: Emit)
    ensures
        still(s, lower_range(args, from, to, c, s).0),
    decreases args, 0nat, to,
{
    if to <= from || from >= args.len() {
    } else if to > args.len() {
        lemma_range(args, from, args.len(), c, s);
    } else {
        lemma_range(args, from, (to - 1) as nat, c, s);
        let s1 = lower_range(args, from, (to - 1) as nat, c, s).0;
        lemma_expr(args[to - 1], c, s1);
    }
}

pub proof fn lemma_padded(s: Emit, regs: Seq<u32>, n: nat)
    ensures
        still(s, padded(s, regs, n).0),
    decreases n - regs.len(),
{
    if regs.len() < n {
        let (s1, zero) = bits_of(s, ZERO);
        lemma_padded(s1, regs.push(zero), n);
    }
}

proof fn lemma_field(kind: Builtin, field: Seq<char>, args: Seq<ExprView>, c: CtxView, s: Emit)
    ensures
        still(s, lower_field(kind, field, args, c, s).0),
    decreases args, 1nat, 2nat,
{
    lemma_range(args, 1, 3, c, s);
    let (s0, given) = lower_range(args, 1, 3, c, s);
    lemma_padded(s0, given, 2);
    let (s1, ij) = padded(s0, given, 2);
    let indices = if kind == Builtin::FieldSet {
        args.len() - 2
    } else {
        args.len() - 1
    };
    let (width, height) = field_dim(c, field);
    lemma_range(args, 3, 4, c, s1);
    let (sk, last) = lower_range(args, 3, 4, c, s1);
    lemma_padded(sk, last, 1);
    let s2 = if indices == 3 {
        let (s2, k) = padded(sk, last, 1);
        let (s3, h) = const_of(s2, Real::Nat(height as u64));
        let (s4, kt) = op_of(s3, Opcode::Mul, seq![nth(k, 0), h]);
        op_of(s4, Opcode::Add, seq![nth(ij, 1), kt]).0
    } else {
        s1
    };
    assert(still(s1, s2));
    if kind == Builtin::FieldSet {
        lemma_range(args, (args.len() - 1) as nat, args.len(), c, s2);
        let (sv, value) = lower_range(args, (args.len() - 1) as nat, args.len(), c, s2);
        lemma_padded(sv, value, 1);
    }
}

/// Whether a built-in stands for an instruction of its own.
pub open spec fn plain_kind(kind: Builtin) -> bool {
    match kind {
        Builtin::Plain(o)
        | Builtin::Extremum(o)
        | Builtin::Schedule(o)
        | Builtin::Query(o) => {
            o != Opcode::ReadView && o != Opcode::WriteView && o != Opcode::WriteSlotDyn
        },
        _ => true,
    }
}

proof fn lemma_vector(kind: Builtin, comps: Seq<u32>, s: Emit)
    ensures
        still(s, vector_of(s, kind, comps).0),
{
    let s1 = vector_term(s, kind, comps, 0).0;
    let s2 = vector_term(s1, kind, comps, 1).0;
    let s3 = vector_term(s2, kind, comps, 2).0;
    assert(still(s, s1));
    assert(still(s1, s2));
    assert(still(s2, s3));
}

proof fn lemma_builtin(kind: Builtin, args: Seq<ExprView>, c: CtxView, s: Emit)
    requires
        plain_kind(kind),
    ensures
        still(s, lower_builtin(kind, args, c, s).0),
    decreases args, 1nat, 3nat,
{
    lemma_range(args, 0, args.len(), c, s);
    match kind {
        Builtin::If => {
            lemma_range(args, 0, 3, c, s);
            let (s0, given) = lower_range(args, 0, 3, c, s);
            lemma_padded(s0, given, 3);
        },
        Builtin::Extremum(_) | Builtin::Emit => {
            lemma_range(args, 0, 2, c, s);
            let (s0, given) = lower_range(args, 0, 2, c, s);
            lemma_padded(s0, given, 2);
        },
        Builtin::VectorLength | Builtin::VectorDot | Builtin::VectorDistance => {
            let (s0, given) = lower_range(args, 0, args.len(), c, s);
            lemma_padded(s0, given, vector_arity(kind));
            let (s1, regs) = padded(s0, given, vector_arity(kind));
            lemma_vector(kind, regs, s1);
        },
        Builtin::FieldGet | Builtin::FieldLaplacian | Builtin::FieldSet => {
            if args.len() > 0 {
                if let ExprView::Name(field) = args[0] {
                    lemma_field(kind, field, args, c, s);
                }
            }
        },
        Builtin::Noise => {
            lemma_noise_adds(s);
            lemma_adds_more(s.out, noise_of(s).0.out, true, false);
        },
        _ => {},
    }
}

proof fn lemma_name(name: Seq<char>, c: CtxView, s: Emit)
    ensures
        still(s, lower_name_spec(name, c, s).0),
{
}

proof fn lemma_truthy(s: Emit, reg: u32)
    ensures
        still(s, truthy_of(s, reg).0),
{
}

pub proof fn lemma_expr(e: ExprView, c: CtxView, s: Emit)
    ensures
        still(s, lower_expr_spec(e, c, s).0),
    decreases e, 0nat, 0nat,
{
    match e {
        ExprView::Const(_)
        | ExprView::Time
        | ExprView::Slot(_)
        | ExprView::Ref(_, _)
        | ExprView::PropRef(_, _) => {},
        ExprView::Name(name) => {
            lemma_name(name, c, s);
        },
        ExprView::SlotDyn(x) | ExprView::Neg(x) | ExprView::Not(x) => {
            lemma_expr(*x, c, s);
        },
        ExprView::Arith(_, a, b) | ExprView::Compare(_, a, b) => {
            lemma_expr(*a, c, s);
            lemma_expr(*b, c, lower_expr_spec(*a, c, s).0);
        },
        ExprView::And(a, b) | ExprView::Or(a, b) => {
            lemma_expr(*a, c, s);
            let (s1, ra) = lower_expr_spec(*a, c, s);
            lemma_expr(*b, c, s1);
            let (s2, rb) = lower_expr_spec(*b, c, s1);
            lemma_truthy(s2, ra);
            lemma_truthy(truthy_of(s2, ra).0, rb);
        },
        ExprView::Call(name, args) => {
            lemma_range(args, 0, args.len(), c, s);
            if callee(name, c) is None {
                lemma_builtin(builtin(name), args, c, s);
            }
        },
    }
}

proof fn lemma_bind(
    index: Option<(Seq<char>, i64)>,
    k: nat,
    run: Option<u32>,
    p: PartsView,
    s: Emit,
    locals: Locals,
)
    ensures
        still(s, bind_iteration(index, k, run, p, s, locals).0),
{
    if let Some((name, lo)) = index {
        let s1 = const_of(s, Real::Int((lo + k) as i64)).0;
        lemma_expr(ExprView::Name(name), CtxView { parts: p, locals }, s1);
    }
}

proof fn lemma_unless(s: Emit, gate: Option<u32>, skip: u32)
    ensures
        still(s, unless_of(s, gate, skip).0),
{
}

proof fn lemma_or_gate(s: Emit, a: Option<u32>, b: u32)
    ensures
        still(s, or_gate_of(s, a, b).0),
{
}

proof fn lemma_let(name: Seq<char>, e: ExprView, run: Option<u32>, p: PartsView, b: Block)
    ensures
        still(b.s, lower_let(name, e, run, p, b).s),
{
    let ctx = CtxView { parts: p, locals: b.locals };
    lemma_expr(e, ctx, b.s);
    let s1 = lower_expr_spec(e, ctx, b.s).0;
    if let Some(r) = run {
        let s2 = match b.skip {
            None => s1,
            Some(sk) => unless_of(s1, Some(r), sk).0,
        };
        if let Some(sk) = b.skip {
            lemma_unless(s1, Some(r), sk);
        }
        lemma_expr(ExprView::Name(name), ctx, s2);
    }
}

proof fn lemma_fired(
    cond: Option<ExprView>,
    run: Option<u32>,
    skip: Option<u32>,
    ctx: CtxView,
    s: Emit,
)
    ensures
        still(s, fired_of(cond, run, skip, ctx, s).0),
{
    if let Some(e) = cond {
        lemma_expr(e, ctx, s);
        let (s1, r) = lower_expr_spec(e, ctx, s);
        lemma_truthy(s1, r);
    }
}

proof fn lemma_jump(
    cond: Option<ExprView>,
    is_break: bool,
    past: Option<u32>,
    run: Option<u32>,
    p: PartsView,
    b: Block,
)
    ensures
        still(b.s, lower_jump(cond, is_break, past, run, p, b).s),
{
    let ctx = CtxView { parts: p, locals: b.locals };
    lemma_fired(cond, run, past, ctx, b.s);
    let (s1, fired) = fired_of(cond, run, past, ctx, b.s);
    lemma_or_gate(s1, b.skip, fired);
    lemma_or_gate(or_gate_of(s1, b.skip, fired).0, b.broke, fired);
}

proof fn lemma_plain_loop(
    body: Seq<LetStmtView>,
    index: Option<(Seq<char>, i64)>,
    k: nat,
    run: Option<u32>,
    p: PartsView,
    s: Emit,
    locals: Locals,
)
    ensures
        still(s, loop_plain(body, index, k, run, p, s, locals).0),
    decreases body, 1nat, k,
{
    if k > 0 {
        lemma_plain_loop(body, index, (k - 1) as nat, run, p, s, locals);
        let (s1, locals1) = loop_plain(body, index, (k - 1) as nat, run, p, s, locals);
        lemma_bind(index, (k - 1) as nat, run, p, s1, locals1);
        let (s2, locals2) = bind_iteration(index, (k - 1) as nat, run, p, s1, locals1);
        lemma_stmts(body, body.len(), run, p, s2, locals2);
    }
}

proof fn lemma_controlled_loop(
    body: Seq<LetStmtView>,
    index: Option<(Seq<char>, i64)>,
    k: nat,
    run: u32,
    p: PartsView,
    s: Emit,
    locals: Locals,
)
    ensures
        still(s, loop_controlled(body, index, k, run, p, s, locals).s),
    decreases body, 1nat, k,
{
    if k > 0 {
        lemma_controlled_loop(body, index, (k - 1) as nat, run, p, s, locals);
        let l = loop_controlled(body, index, (k - 1) as nat, run, p, s, locals);
        if let Some(b) = l.broke {
            lemma_unless(l.s, Some(l.run), b);
        }
        let (s1, run_k) = match l.broke {
            None => (l.s, l.run),
            Some(b) => unless_of(l.s, Some(l.run), b),
        };
        lemma_bind(index, (k - 1) as nat, Some(run_k), p, s1, l.locals);
        let (s2, locals2) = bind_iteration(index, (k - 1) as nat, Some(run_k), p, s1, l.locals);
        lemma_stmts(body, body.len(), Some(run_k), p, s2, locals2);
        let b = lower_stmts(body, body.len(), Some(run_k), p, s2, locals2);
        if let Some(bb) = b.broke {
            lemma_or_gate(b.s, l.broke, bb);
        }
    }
}

proof fn lemma_loop(
    body: Seq<LetStmtView>,
    index: Option<(Seq<char>, i64)>,
    count: nat,
    run: Option<u32>,
    p: PartsView,
    b: Block,
)
    ensures
        still(b.s, lower_loop(body, index, count, run, p, b).s),
    decreases body, 1nat, count + 1,
{
    if let Some(sk) = b.skip {
        lemma_unless(b.s, run, sk);
    }
    let (s1, enter) = match b.skip {
        None => (b.s, run),
        Some(sk) => {
            let (s, g) = unless_of(b.s, run, sk);
            (s, Some(g))
        },
    };
    if !controlled(body) {
        lemma_plain_loop(body, index, count, enter, p, s1, b.locals);
    } else {
        let (s2, gate) = match enter {
            Some(g) => (s1, g),
            None => bits_of(s1, ONE),
        };
        assert(still(s1, s2));
        lemma_controlled_loop(body, index, count, gate, p, s2, b.locals);
    }
}

proof fn lemma_stmt(st: LetStmtView, run: Option<u32>, p: PartsView, b: Block)
    ensures
        still(b.s, lower_stmt(st, run, p, b).s),
    decreases st, 2nat, 0nat,
{
    match st {
        LetStmtView::Let(name, e) => {
            lemma_let(name, e, run, p, b);
        },
        LetStmtView::Break(cond) => {
            lemma_jump(cond, true, b.skip, run, p, b);
        },
        LetStmtView::Until(e) => {
            lemma_jump(Some(e), true, None, run, p, b);
        },
        LetStmtView::Continue(cond) => {
            lemma_jump(cond, false, b.skip, run, p, b);
        },
        LetStmtView::Repeat(n, body) => {
            lemma_loop(body, None, n as nat, run, p, b);
        },
        LetStmtView::For(name, lo, hi, body) => {
            lemma_loop(body, Some((name, lo)), range_count(lo, hi), run, p, b);
        },
    }
}

pub proof fn lemma_stmts(
    stmts: Seq<LetStmtView>,
    n: nat,
    run: Option<u32>,
    p: PartsView,
    s: Emit,
    locals: Locals,
)
    ensures
        still(s, lower_stmts(stmts, n, run, p, s, locals).s),
    decreases stmts, 0nat, n,
{
    if n > 0 && n <= stmts.len() {
        lemma_stmts(stmts, (n - 1) as nat, run, p, s, locals);
        lemma_stmt(stmts[n - 1], run, p, lower_stmts(stmts, (n - 1) as nat, run, p, s, locals));
    }
}

pub proof fn lemma_slot_reads(out: Seq<InstructionView>, entity: u128, n: nat)
    ensures
        adds(out, slot_reads(out, entity, n).0, true, false),
    decreases n,
{
    if n > 0 {
        lemma_slot_reads(out, entity, (n - 1) as nat);
    }
}

proof fn lemma_key_reads(out: Seq<InstructionView>, keys: Seq<Key>, n: nat)
    ensures
        adds(out, key_reads(out, keys, n).0, true, false),
    decreases n,
{
    if n > 0 && n <= keys.len() {
        lemma_key_reads(out, keys, (n - 1) as nat);
        let out1 = key_reads(out, keys, (n - 1) as nat).0;
        let target = prop_target(keys[n - 1].1);
        let s1 = read_of(resumed(out1), keys[n - 1].0, target.0, target.1).0;
        assert(adds(out1, s1.out, true, false));
    }
}

pub proof fn lemma_change(u: RulesView, expr: ExprView, ctx: CtxView, s: Emit)
    ensures
        still(s, change_of(u, expr, ctx, s).0),
{
    lemma_expr(expr, ctx, s);
}

pub proof fn lemma_flag(when: Option<ExprView>, ctx: CtxView, s: Emit)
    ensures
        still(s, flag_of(when, ctx, s).0),
{
    if let Some(w) = when {
        lemma_expr(w, ctx, s);
        let (s1, r) = lower_expr_spec(w, ctx, s);
        lemma_truthy(s1, r);
    }
}

pub proof fn lemma_rule_values(
    u: RulesView,
    found: Seq<(usize, nat)>,
    n: nat,
    ctx: CtxView,
    flag: Option<u32>,
    s: Emit,
)
    ensures
        still(s, rule_values(u, found, n, ctx, flag, s).0),
    decreases n,
{
    if n > 0 && n <= found.len() {
        lemma_rule_values(u, found, (n - 1) as nat, ctx, flag, s);
        let s1 = rule_values(u, found, (n - 1) as nat, ctx, flag, s).0;
        lemma_change(u, u.rules[found[n - 1].1 as int].1, ctx, s1);
    }
}

pub proof fn lemma_dyn_values(
    u: RulesView,
    n: nat,
    entity: u128,
    ctx: CtxView,
    flag: Option<u32>,
    s: Emit,
)
    ensures
        still(s, dyn_values(u, n, entity, ctx, flag, s).0),
    decreases n,
{
    if n > 0 && n <= u.dyn_rules.len() {
        lemma_dyn_values(u, (n - 1) as nat, entity, ctx, flag, s);
        let s1 = dyn_values(u, (n - 1) as nat, entity, ctx, flag, s).0;
        let (index, expr) = u.dyn_rules[n - 1];
        lemma_change(u, expr, ctx, s1);
        lemma_expr(index, ctx, change_of(u, expr, ctx, s1).0);
    }
}

proof fn lemma_rule_writes(
    found: Seq<(usize, nat)>,
    values: Seq<u32>,
    n: nat,
    entity: u128,
    s: Emit,
)
    ensures
        adds(s.out, rule_writes(found, values, n, entity, s).out, false, true),
    decreases n,
{
    if n > 0 && n <= found.len() {
        lemma_rule_writes(found, values, (n - 1) as nat, entity, s);
    }
}

proof fn lemma_dyn_writes(values: Seq<(u32, u32)>, n: nat, entity: u128, s: Emit)
    ensures
        adds(s.out, dyn_writes(values, n, entity, s).out, false, true),
    decreases n,
{
    if n > 0 && n <= values.len() {
        lemma_dyn_writes(values, (n - 1) as nat, entity, s);
    }
}

/// The code of a substep up to the first write, and the whole of it.
spec fn in_turn(
    a: Seq<InstructionView>,
    mid: Seq<InstructionView>,
    b: Seq<InstructionView>,
) -> bool {
    adds(a, mid, true, false) && adds(mid, b, false, true)
}

proof fn lemma_update_substep(u: RulesView, f: Frame, out: Seq<InstructionView>) -> (mid: Seq<
    InstructionView,
>)
    ensures
        in_turn(out, mid, update_substep(u, f, out)),
{
    lemma_slot_reads(out, f.entity, f.slots as nat);
    let (out1, slot_regs) = slot_reads(out, f.entity, f.slots as nat);
    let parts = PartsView {
        slot_regs,
        ref_regs: f.ref_regs,
        prop_regs: f.prop_regs,
        state_names: f.sn,
        scope: u.scope,
        current_entity: f.entity,
    };
    lemma_stmts(u.lets, u.lets.len(), None, parts, resumed(out1), Seq::empty());
    let b = lower_stmts(u.lets, u.lets.len(), None, parts, resumed(out1), Seq::empty());
    let ctx = CtxView { parts, locals: b.locals };
    lemma_flag(u.when, ctx, b.s);
    let (s2, flag) = flag_of(u.when, ctx, b.s);
    let found = resolved(u.rules, u.rules.len(), f.sn);
    lemma_rule_values(u, found, found.len(), ctx, flag, s2);
    let (s3, values) = rule_values(u, found, found.len(), ctx, flag, s2);
    lemma_dyn_values(u, u.dyn_rules.len(), f.entity, ctx, flag, s3);
    let (s4, pairs) = dyn_values(u, u.dyn_rules.len(), f.entity, ctx, flag, s3);
    lemma_rule_writes(found, values, found.len(), f.entity, s4);
    lemma_dyn_writes(
        pairs,
        pairs.len(),
        f.entity,
        rule_writes(found, values, found.len(), f.entity, s4),
    );
    s4.out
}

pub proof fn lemma_shifted(
    out: Seq<InstructionView>,
    y: Seq<u32>,
    k: Seq<Option<u32>>,
    shift: Real,
    n: nat,
)
    ensures
        adds(out, shifted(out, y, k, shift, n).0, true, false),
    decreases n,
{
    if n > 0 && n <= y.len() {
        lemma_shifted(out, y, k, shift, (n - 1) as nat);
    }
}

pub proof fn lemma_derivatives(
    u: RulesView,
    found: Seq<(usize, nat)>,
    n: nat,
    slots: usize,
    ctx: CtxView,
    s: Emit,
)
    ensures
        still(s, derivatives(u, found, n, slots, ctx, s).0),
    decreases n,
{
    if n > 0 && n <= found.len() {
        lemma_derivatives(u, found, (n - 1) as nat, slots, ctx, s);
        let s1 = derivatives(u, found, (n - 1) as nat, slots, ctx, s).0;
        lemma_expr(u.rules[found[n - 1].1 as int].1, ctx, s1);
    }
}

pub proof fn lemma_stage(u: RulesView, f: Frame, work: Seq<u32>, out: Seq<InstructionView>)
    ensures
        adds(out, stage(u, f, work, out).0, true, false),
{
    let parts = PartsView {
        slot_regs: work,
        ref_regs: f.ref_regs,
        prop_regs: f.prop_regs,
        state_names: f.sn,
        scope: u.scope,
        current_entity: f.entity,
    };
    lemma_stmts(u.lets, u.lets.len(), None, parts, resumed(out), Seq::empty());
    let b = lower_stmts(u.lets, u.lets.len(), None, parts, resumed(out), Seq::empty());
    let ctx = CtxView { parts, locals: b.locals };
    let found = resolved(u.rules, u.rules.len(), f.sn);
    lemma_derivatives(u, found, found.len(), f.slots, ctx, b.s);
}

pub proof fn lemma_rk4_flag(u: RulesView, f: Frame, out: Seq<InstructionView>)
    ensures
        adds(out, rk4_flag(u, f, out).0, true, false),
{
    if let Some(w) = u.when {
        let slots = past(span_cond(u.when, f.sn)) as nat;
        lemma_slot_reads(out, f.entity, slots);
        let (out1, slot_regs) = slot_reads(out, f.entity, slots);
        let parts = PartsView {
            slot_regs,
            ref_regs: f.ref_regs,
            prop_regs: f.prop_regs,
            state_names: f.sn,
            scope: u.scope,
            current_entity: f.entity,
        };
        let ctx = CtxView { parts, locals: Seq::empty() };
        lemma_expr(w, ctx, resumed(out1));
        let (s1, r) = lower_expr_spec(w, ctx, resumed(out1));
        lemma_truthy(s1, r);
    }
}

pub proof fn lemma_combined(
    u: RulesView,
    slot: usize,
    y: u32,
    ks: Seq<Seq<Option<u32>>>,
    flag: Option<u32>,
    s: Emit,
)
    ensures
        adds(s.out, combined(u, slot, y, ks, flag, s).0.out, false, false),
{
}

pub proof fn lemma_combined_writes(
    u: RulesView,
    f: Frame,
    n: nat,
    y: Seq<u32>,
    ks: Seq<Seq<Option<u32>>>,
    flag: Option<u32>,
    out: Seq<InstructionView>,
)
    ensures
        adds(out, combined_writes(u, f, n, y, ks, flag, out), false, true),
    decreases n,
{
    let found = resolved(u.rules, u.rules.len(), f.sn);
    if n > 0 && n <= found.len() {
        lemma_combined_writes(u, f, (n - 1) as nat, y, ks, flag, out);
        let out1 = combined_writes(u, f, (n - 1) as nat, y, ks, flag, out);
        let slot = found[n - 1].0;
        lemma_combined(u, slot, held(y, slot), ks, flag, resumed(out1));
        let (s2, new) = combined(u, slot, held(y, slot), ks, flag, resumed(out1));
        lemma_adds_more(out1, s2.out, false, true);
    }
}

proof fn lemma_rk4_substep(u: RulesView, f: Frame, out: Seq<InstructionView>) -> (mid: Seq<
    InstructionView,
>)
    ensures
        in_turn(out, mid, rk4_substep(u, f, out)),
{
    let half = Real::StepOver { dt: u.dt, substeps: u.substeps as u64, by: 2 };
    let full = Real::Step { dt: u.dt, substeps: u.substeps as u64 };
    lemma_slot_reads(out, f.entity, f.slots as nat);
    let (o0, y) = slot_reads(out, f.entity, f.slots as nat);
    lemma_stage(u, f, y, o0);
    let (o1, k1) = stage(u, f, y, o0);
    lemma_shifted(o1, y, k1, half, y.len());
    let (o2, w2) = shifted(o1, y, k1, half, y.len());
    lemma_stage(u, f, w2, o2);
    let (o3, k2) = stage(u, f, w2, o2);
    lemma_shifted(o3, y, k2, half, y.len());
    let (o4, w3) = shifted(o3, y, k2, half, y.len());
    lemma_stage(u, f, w3, o4);
    let (o5, k3) = stage(u, f, w3, o4);
    lemma_shifted(o5, y, k3, full, y.len());
    let (o6, w4) = shifted(o5, y, k3, full, y.len());
    lemma_stage(u, f, w4, o6);
    let (o7, k4) = stage(u, f, w4, o6);
    lemma_rk4_flag(u, f, o7);
    let (o8, flag) = rk4_flag(u, f, o7);
    let n = resolved(u.rules, u.rules.len(), f.sn).len();
    lemma_combined_writes(u, f, n, y, seq![k1, k2, k3, k4], flag, o8);
    o8
}

proof fn lemma_closed(code: Seq<InstructionView>, branch: Option<(u32, nat)>)
    requires
        reads_first(code, 0),
    ensures
        reads_first(closed(code, branch), 0),
{
    let r = closed(code, branch);
    assert forall|i: int, j: int|
        0 <= i < j < r.len() && stores(#[trigger] r[i]) implies !senses(#[trigger] r[j]) by {
        if j < code.len() {
            assert(stores(code[i]));
            assert(!senses(code[j]));
        }
    }
}

/// In every substep of an `update` or `rk4` system, whatever the rules read of the own
/// and of other entities is read before the first write: the rules act at once.
pub proof fn law_rules_act_at_once(u: RulesView, f: Frame, out: Seq<InstructionView>)
    ensures
        reads_first(update_substep(u, f, out), out.len()),
        reads_first(rk4_substep(u, f, out), out.len()),
{
    let mid = lemma_update_substep(u, f, out);
    lemma_reads_first(out, mid, update_substep(u, f, out));
    let mid = lemma_rk4_substep(u, f, out);
    lemma_reads_first(out, mid, rk4_substep(u, f, out));
}

/// The function of an `update` or `rk4` system that takes its step at once reads no
/// entity after its first write.
pub proof fn law_functions_read_first(u: RulesView, entity: u128)
    requires
        u.substeps <= 1,
    ensures
        reads_first(update_lowered(u, entity, Seq::empty()), 0),
        reads_first(rk4_lowered(u, entity, Seq::empty()), 0),
{
    if applies(u.only, entity) {
        reveal_with_fuel(update_substeps, 2);
        reveal_with_fuel(rk4_substeps, 2);
        let start: Seq<InstructionView> = Seq::empty();
        let (out, branch) = opened(u.every, start);
        assert(adds(start, out, false, false));
        lemma_adds_more(start, out, true, false);
        let sn = layout_of(u.scope.state_names_by_id, entity);
        let refs = rule_refs(u);
        lemma_key_reads(out, refs.slots, refs.slots.len());
        let (out1, ref_regs) = key_reads(out, refs.slots, refs.slots.len());
        lemma_key_reads(out1, refs.props, refs.props.len());
        let (out2, prop_regs) = key_reads(out1, refs.props, refs.props.len());
        let f = Frame { entity, sn, slots: update_slots(u, sn), ref_regs, prop_regs };
        let mid = lemma_update_substep(u, f, out2);
        lemma_reads_first(start, mid, update_substep(u, f, out2));
        let g = Frame { slots: rk4_slots(u, sn), ..f };
        let after = lemma_rk4_substep(u, g, out2);
        lemma_reads_first(start, after, rk4_substep(u, g, out2));
        lemma_reads_first(start, out2, out2);
        lemma_closed(update_substeps(u, f, u.substeps as nat, out2), branch);
        lemma_closed(rk4_substeps(u, g, u.substeps as nat, out2), branch);
    }
}

proof fn lemma_row(
    row: Seq<u64>,
    slots: usize,
    dt: u64,
    regs: Seq<u32>,
    n: nat,
    s: Emit,
)
    ensures
        adds(s.out, row_terms(row, slots, dt, regs, n, s).0.out, false, false),
    decreases n,
{
    if n > 0 && n <= regs.len() {
        lemma_row(row, slots, dt, regs, (n - 1) as nat, s);
    }
}

proof fn lemma_rows(
    rows: Seq<Seq<u64>>,
    slots: usize,
    dt: u64,
    regs: Seq<u32>,
    n: nat,
    entity: u128,
    out: Seq<InstructionView>,
)
    ensures
        adds(out, linear_rows(rows, slots, dt, regs, n, entity, out), false, true),
    decreases n,
{
    if !(n == 0 || n > rows.len() || n > slots) {
        lemma_rows(rows, slots, dt, regs, (n - 1) as nat, entity, out);
        let out1 = linear_rows(rows, slots, dt, regs, (n - 1) as nat, entity, out);
        lemma_row(rows[n - 1], slots, dt, regs, regs.len(), resumed(out1));
        let (s2, acc) = row_terms(rows[n - 1], slots, dt, regs, regs.len(), resumed(out1));
        let s3 = op_of(s2, Opcode::Add, seq![regs[n - 1], acc]).0;
        lemma_adds_more(out1, s3.out, false, true);
    }
}

/// The rows of a linear system act at once.
pub proof fn law_rows_act_at_once(
    rows: Seq<Seq<u64>>,
    slots: usize,
    dt: u64,
    entity: u128,
    out: Seq<InstructionView>,
)
    ensures
        reads_first(linear_lowered(rows, slots, dt, entity, out), out.len()),
{
    lemma_slot_reads(out, entity, slots as nat);
    let (out1, regs) = slot_reads(out, entity, slots as nat);
    let n = row_count(rows.len(), slots);
    lemma_rows(rows, slots, dt, regs, n, entity, out1);
    let out2 = linear_rows(rows, slots, dt, regs, n, entity, out1);
    assert(adds(out2, ended(out2), false, true)) by {
        reveal(adds);
    }
    lemma_reads_first(out, out1, ended(out2));
}

} // verus!
