//! The functions of a program as a whole: each ends, sets each of its registers once,
//! and uses none before it is set.

use crate::block::lower_stmts;
use crate::bodies::{
    advance, drag, drift, ground, kick, linear_rows, nbody_code, pull, pulls, push_axis, row_count,
    row_terms, triple_of, triple_write, wall_floor, wall_pair, Triple,
};
use crate::chan::{recv_lowered, send_lowered};
use crate::checks::{crossing_of, invariant_lowered, observed, watch_lowered};
use crate::compile::{
    argument_names, argument_regs, function_code, function_scope, lowered_program,
    program_surroundings, slot_ids, with_declared,
};
use crate::decl::{FuncView, ProgramView};
use crate::eir::{
    slot_offset, ComponentView, FunctionView, ImmediateView, InstructionView, ONE, Opcode, POS_X,
    POS_Y, POS_Z, Real, TWO, VEL_X, VEL_Y, VEL_Z, ValueType, ZERO,
};
use crate::emit::{
    at, bits_of, const_of, const_u64_of, effect_of, known_of, max_result, op_of, read_of, result_of,
    resumed, return_of, select_bool_of, test_of, truthy_of, write_of, Emit,
};
use crate::expr::{ExprView, LetStmtView, PropKind};
use crate::fields::{diffuse_lowered, field_limbs, poisson_lowered, solver, wave_lowered, WaveView};
use crate::lower::lower_expr_spec;
use crate::numbering::{
    after, extends, fits, group_code, group_emitted, has, has_all, has_some, lemma_branch,
    lemma_effect, lemma_known, lemma_level, lemma_result, level, may, orderly, small, tidy, uses,
    yields,
};
use crate::numbers::NumbersView;
use crate::pools::{activations, despawn_lowered, limb_consts, spawn_lowered, SpawnView};
use crate::program::{
    ends, guard_of, guarded_code, guarding, id_insert, ids_sorted, left_at, program_functions,
    system_code, with_entities, SystemView,
};
use crate::refs::{later, no_refs, refs_of, refs_stmts, span, span_stmts, Key, RefsView};
use crate::registers::{
    knows, knows_keys, knows_locals, knows_parts, lemma_bound, lemma_expr, lemma_knows,
    lemma_select_bool, lemma_slot, lemma_stmts, lemma_truthy,
};
use crate::rk4::{
    combined, combined_writes, derivative, derivatives, held, rk4_flag, rk4_lowered, rk4_slots,
    rk4_substep, rk4_substeps, shifted, stage, weights,
};
use crate::rules::{
    applies, closed, ended, key_reads, lemma_slot_reads_len, prop_target, schedule_of, slot_reads,
};
use crate::scope::{layout_of, reg_get, slot_reg, CtxView, Layout, PartsView, ScopeView};
use crate::stmts::lets_of;
use crate::update::{
    at_least, change_of, chosen, dyn_values, dyn_writes, flag_of, opened, past, resolved, rule_refs,
    rule_values, rule_writes, span_cond, update_lowered, update_slots, update_substep,
    update_substeps, Frame, RulesView,
};
use vstd::prelude::*;

verus! {

broadcast use group_code;

proof fn lemma_max(code: Seq<InstructionView>)
    requires
        orderly(code, 1),
        1 + code.len() <= u32::MAX,
    ensures
        max_result(code) + 1 == level(code, 1),
    decreases code.len(),
{
    if code.len() > 0 {
        lemma_max(code.drop_last());
    }
}

/// Numbering goes on where it stopped.
pub proof fn lemma_resume(s: Emit)
    requires
        tidy(s, 1),
    ensures
        tidy(resumed(s.out), 1),
        after(s, resumed(s.out), 1),
        after(resumed(s.out), s, 1),
{
    reveal(tidy);
    if small(s, 1) {
        lemma_max(s.out);
        lemma_level(s.out, 1);
    }
}

/// Whether code is orderly behind other code.
pub open spec fn grown(a: Seq<InstructionView>, b: Seq<InstructionView>) -> bool {
    tidy(resumed(b), 1) && after(resumed(a), resumed(b), 1)
}

pub proof fn lemma_reg_pushed(
    regs: Seq<(u128, PropKind, u32)>,
    x: (u128, PropKind, u32),
    id: u128,
    kind: PropKind,
)
    ensures
        reg_get(regs.push(x), id, kind) == (match reg_get(regs, id, kind) {
            Some(r) => Some(r),
            None => if x.0 == id && x.1 == kind {
                Some(x.2)
            } else {
                None
            },
        }),
    decreases regs.len(),
{
    reveal_with_fuel(reg_get, 2);
    if regs.len() == 0 {
        assert(regs.push(x).drop_first() =~= regs);
    } else {
        assert(regs.push(x).drop_first() =~= regs.drop_first().push(x));
        lemma_reg_pushed(regs.drop_first(), x, id, kind);
    }
}

pub proof fn lemma_keys(out: Seq<InstructionView>, keys: Seq<Key>, n: nat)
    requires
        tidy(resumed(out), 1),
    ensures
        ({
            let (done, regs) = key_reads(out, keys, n);
            grown(out, done) && knows_keys(regs, resumed(done), 1)
        }),
    decreases n,
{
    if n == 0 || n > keys.len() {
    } else {
        lemma_keys(out, keys, (n - 1) as nat);
        let (out1, regs) = key_reads(out, keys, (n - 1) as nat);
        let key = keys[n - 1];
        let target = prop_target(key.1);
        let (s, r) = read_of(resumed(out1), key.0, target.0, target.1);
        assert(tidy(s, 1) && has(s, 1, r) && after(resumed(out1), s, 1)) by {
            broadcast use group_emitted;

        }
        lemma_resume(s);
        assert forall|id: u128, kind: PropKind|
            has_some(
                resumed(s.out),
                1,
                #[trigger] reg_get(regs.push((key.0, key.1, r)), id, kind),
            ) by {
            lemma_reg_pushed(regs, (key.0, key.1, r), id, kind);
            assert(has_some(resumed(out1), 1, reg_get(regs, id, kind)));
        }
    }
}

pub proof fn lemma_slots(out: Seq<InstructionView>, entity: u128, n: nat)
    requires
        tidy(resumed(out), 1),
    ensures
        ({
            let (done, regs) = slot_reads(out, entity, n);
            grown(out, done) && has_all(resumed(done), 1, regs)
        }),
    decreases n,
{
    if n > 0 {
        lemma_slots(out, entity, (n - 1) as nat);
        let (out1, regs) = slot_reads(out, entity, (n - 1) as nat);
        let (s, r) = read_of(
            resumed(out1),
            entity,
            ComponentView::State,
            slot_offset((n - 1) as usize),
        );
        assert(tidy(s, 1) && has(s, 1, r) && after(resumed(out1), s, 1)) by {
            broadcast use group_emitted;

        }
        lemma_resume(s);
    }
}

proof fn lemma_replaced(code: Seq<InstructionView>, first: nat, at: int, i: InstructionView)
    requires
        orderly(code, first),
        0 <= at < code.len(),
        i.result_id == code[at].result_id,
        i.result_type == code[at].result_type,
        uses(i) == uses(code[at]),
    ensures
        orderly(code.update(at, i), first),
        level(code.update(at, i), first) == level(code, first),
    decreases code.len(),
{
    let new = code.update(at, i);
    if at == code.len() - 1 {
        assert(new.drop_last() =~= code.drop_last());
    } else {
        assert(new.drop_last() =~= code.drop_last().update(at, i));
        lemma_replaced(code.drop_last(), first, at, i);
    }
}

/// Whether the code of a function is complete: it ends, and its registers, as far as
/// they can be numbered, are set once and before they are used.
pub open spec fn complete(code: Seq<InstructionView>, arguments: nat) -> bool {
    &&& code.len() > 0
    &&& code.last().opcode == Opcode::Return
    &&& 1 + arguments + code.len() <= u32::MAX ==> orderly(code, 1 + arguments)
}

/// Whether complete code starts with given code.
pub open spec fn made(start: Seq<InstructionView>, code: Seq<InstructionView>) -> bool {
    complete(code, 0) && extends(start, code)
}

proof fn lemma_ended(out: Seq<InstructionView>)
    requires
        tidy(resumed(out), 1),
    ensures
        complete(ended(out), 0),
        grown(out, ended(out)),
        made(out, ended(out)),
{
    broadcast use group_emitted;

    let s = return_of(resumed(out));
    assert(s.out == ended(out));
    lemma_resume(s);
    reveal(tidy);
}

/// Whether a branch stands where it is said to.
pub open spec fn branches(out: Seq<InstructionView>, branch: Option<(u32, nat)>) -> bool {
    branch matches Some((skip, at)) ==> at < out.len() && out[at as int].opcode == Opcode::CondBr
        && out[at as int].operands.len() > 0 && out[at as int].operands[0] == skip
}

proof fn lemma_closed(
    start: Seq<InstructionView>,
    out: Seq<InstructionView>,
    branch: Option<(u32, nat)>,
)
    requires
        tidy(resumed(out), 1),
        branches(out, branch),
        extends(start, out),
        branch matches Some((_, at)) ==> start.len() <= at,
    ensures
        made(start, closed(out, branch)),
{
    lemma_ended(out);
    if let Some((skip, at)) = branch {
        let body = ended(out);
        lemma_ended(body);
        let both = ended(body);
        let i = InstructionView {
            operands: seq![skip, body.len() as u32, (at + 1) as u32],
            ..both[at as int]
        };
        assert(both[at as int] == out[at as int]);
        assert(uses(i) =~= uses(both[at as int]));
        if 1 + both.len() <= u32::MAX {
            lemma_replaced(both, 1, at as int, i);
        }
        assert(extends(start, closed(out, branch))) by {
            reveal(extends);
        }
    }
}

/// Code that ends behind a tidy state is complete.
proof fn lemma_done(s: Emit)
    requires
        tidy(s, 1),
    ensures
        made(s.out, ended(s.out)),
        made(s.out, return_of(s).out),
{
    lemma_resume(s);
    lemma_ended(s.out);
    assert(return_of(s).out == ended(s.out));
}

pub proof fn lemma_kick(entity: u128, offset: u32, a: u64, dt: u64, s: Emit)
    requires
        tidy(s, 1),
    ensures
        tidy(kick(entity, offset, a, dt, s), 1),
        after(s, kick(entity, offset, a, dt, s), 1),
{
    broadcast use group_emitted;

}

pub proof fn lemma_push_axis(entity: u128, offset: u32, a: u64, dt: u64, out: Seq<InstructionView>)
    requires
        tidy(resumed(out), 1),
    ensures
        grown(out, push_axis(entity, offset, a, dt, out)),
{
    lemma_kick(entity, offset, a, dt, resumed(out));
    lemma_resume(kick(entity, offset, a, dt, resumed(out)));
}

pub proof fn lemma_drift(entity: u128, pos: u32, vel: u32, dt: u64, out: Seq<InstructionView>)
    requires
        tidy(resumed(out), 1),
    ensures
        grown(out, drift(entity, pos, vel, dt, out)),
{
    broadcast use group_emitted;

    let (s, p) = read_of(resumed(out), entity, ComponentView::Transform, pos);
    let (s, v) = read_of(s, entity, ComponentView::Velocity, vel);
    let (s, step) = bits_of(s, dt);
    let (s, moved) = op_of(s, Opcode::Mul, seq![v, step]);
    let (s, new) = op_of(s, Opcode::Add, seq![p, moved]);
    lemma_resume(write_of(s, entity, ComponentView::Transform, pos, new));
}

pub proof fn lemma_drag(entity: u128, offset: u32, factor: u64, out: Seq<InstructionView>)
    requires
        tidy(resumed(out), 1),
    ensures
        grown(out, drag(entity, offset, factor, out)),
{
    broadcast use group_emitted;

    let (s, vel) = read_of(resumed(out), entity, ComponentView::Velocity, offset);
    let (s, f) = bits_of(s, factor);
    let (s, scaled) = op_of(s, Opcode::Mul, seq![vel, f]);
    lemma_resume(write_of(s, entity, ComponentView::Velocity, offset, scaled));
}

pub proof fn lemma_ground(restitution: u64, entity: u128, s: Emit)
    requires
        tidy(s, 1),
    ensures
        tidy(ground(restitution, entity, s), 1),
        after(s, ground(restitution, entity, s), 1),
{
    broadcast use group_emitted;

}

#[verifier::rlimit(60)]
pub proof fn lemma_wall_pair(
    entity: u128,
    pos: u32,
    vel: u32,
    limit: u64,
    restitution: u64,
    s: Emit,
)
    requires
        tidy(s, 1),
    ensures
        tidy(wall_pair(entity, pos, vel, limit, restitution, s), 1),
        after(s, wall_pair(entity, pos, vel, limit, restitution, s), 1),
{
    broadcast use group_emitted;

}

pub proof fn lemma_wall_floor(entity: u128, y_min: u64, restitution: u64, s: Emit)
    requires
        tidy(s, 1),
    ensures
        tidy(wall_floor(entity, y_min, restitution, s), 1),
        after(s, wall_floor(entity, y_min, restitution, s), 1),
{
    broadcast use group_emitted;

}

pub proof fn lemma_row_terms(
    row: Seq<u64>,
    slots: usize,
    dt: u64,
    regs: Seq<u32>,
    n: nat,
    s: Emit,
)
    requires
        tidy(s, 1),
        has_all(s, 1, regs),
    ensures
        yields(s, row_terms(row, slots, dt, regs, n, s), 1),
    decreases n,
{
    broadcast use group_emitted;

    if n > 0 && n <= regs.len() {
        lemma_row_terms(row, slots, dt, regs, (n - 1) as nat, s);
        assert(has(s, 1, regs[n - 1]));
    }
}

pub proof fn lemma_linear_rows(
    rows: Seq<Seq<u64>>,
    slots: usize,
    dt: u64,
    regs: Seq<u32>,
    n: nat,
    entity: u128,
    out: Seq<InstructionView>,
)
    requires
        tidy(resumed(out), 1),
        has_all(resumed(out), 1, regs),
        regs.len() == slots,
    ensures
        grown(out, linear_rows(rows, slots, dt, regs, n, entity, out)),
    decreases n,
{
    if n > 0 && n <= rows.len() && n <= slots {
        lemma_linear_rows(rows, slots, dt, regs, (n - 1) as nat, entity, out);
        let before = linear_rows(rows, slots, dt, regs, (n - 1) as nat, entity, out);
        lemma_row_terms(rows[n - 1], slots, dt, regs, regs.len(), resumed(before));
        let (s, acc) = row_terms(rows[n - 1], slots, dt, regs, regs.len(), resumed(before));
        let (s2, new) = op_of(s, Opcode::Add, seq![regs[n - 1], acc]);
        let s3 = write_of(
            s2,
            entity,
            ComponentView::State,
            slot_offset((n - 1) as usize),
            new,
        );
        assert(has(resumed(out), 1, regs[n - 1]));
        assert(tidy(s3, 1) && after(s, s3, 1)) by {
            broadcast use group_emitted;

        }
        lemma_resume(s3);
    }
}

/// Whether three registers may be used.
pub open spec fn has_triple(s: Emit, t: Triple) -> bool {
    has(s, 1, t.0) && has(s, 1, t.1) && has(s, 1, t.2)
}

#[verifier::rlimit(80)]
pub proof fn lemma_pull(j: u128, p: Triple, g: u64, s: Emit)
    requires
        tidy(s, 1),
        has_triple(s, p),
    ensures
        ({
            let (t, a) = pull(j, p, g, s);
            tidy(t, 1) && has_triple(t, a) && after(s, t, 1)
        }),
{
    broadcast use group_emitted;

}

pub proof fn lemma_summed(a: Triple, b: Triple, s: Emit)
    requires
        tidy(s, 1),
        has_triple(s, a),
        has_triple(s, b),
    ensures
        ({
            let (s1, x) = op_of(s, Opcode::Add, seq![a.0, b.0]);
            let (s2, y) = op_of(s1, Opcode::Add, seq![a.1, b.1]);
            let (s3, z) = op_of(s2, Opcode::Add, seq![a.2, b.2]);
            tidy(s3, 1) && has_triple(s3, (x, y, z)) && after(s, s3, 1)
        }),
{
    broadcast use group_emitted;

}

pub proof fn lemma_pulls(
    bodies: Seq<u128>,
    n: nat,
    entity: u128,
    p: Triple,
    g: u64,
    a: Triple,
    s: Emit,
)
    requires
        tidy(s, 1),
        has_triple(s, p),
        has_triple(s, a),
    ensures
        ({
            let (t, b) = pulls(bodies, n, entity, p, g, a, s);
            tidy(t, 1) && has_triple(t, b) && after(s, t, 1)
        }),
    decreases n,
{
    if n > 0 && n <= bodies.len() {
        lemma_pulls(bodies, (n - 1) as nat, entity, p, g, a, s);
        let (s1, b) = pulls(bodies, (n - 1) as nat, entity, p, g, a, s);
        if bodies[n - 1] != entity {
            lemma_pull(bodies[n - 1], p, g, s1);
            let (s2, t) = pull(bodies[n - 1], p, g, s1);
            lemma_summed(b, t, s2);
        }
    }
}

pub proof fn lemma_advance(b: Triple, d: Triple, dt: u64, s: Emit)
    requires
        tidy(s, 1),
        has_triple(s, b),
        has_triple(s, d),
    ensures
        ({
            let (t, n) = advance(b, d, dt, s);
            tidy(t, 1) && has_triple(t, n) && after(s, t, 1)
        }),
{
    broadcast use group_emitted;

}

pub proof fn lemma_triple(entity: u128, slot: usize, s: Emit)
    requires
        tidy(s, 1),
    ensures
        ({
            let (t, n) = triple_of(entity, slot, s);
            tidy(t, 1) && has_triple(t, n) && after(s, t, 1)
        }),
{
    broadcast use group_emitted;

}

pub proof fn lemma_triple_write(entity: u128, slot: usize, v: Triple, s: Emit)
    requires
        tidy(s, 1),
        has_triple(s, v),
    ensures
        tidy(triple_write(entity, slot, v, s), 1),
        after(s, triple_write(entity, slot, v, s), 1),
{
    broadcast use group_emitted;

}

proof fn lemma_nbody(bodies: Seq<u128>, g: u64, dt: u64, entity: u128, s: Emit)
    requires
        tidy(s, 1),
    ensures
        tidy(nbody_code(bodies, g, dt, entity, s), 1),
        after(s, nbody_code(bodies, g, dt, entity, s), 1),
{
    lemma_triple(entity, 0, s);
    let (s1, p) = triple_of(entity, 0, s);
    lemma_triple(entity, 3, s1);
    let (s2, v) = triple_of(entity, 3, s1);
    let (s3, ax) = bits_of(s2, ZERO);
    let (s4, ay) = bits_of(s3, ZERO);
    let (s5, az) = bits_of(s4, ZERO);
    assert(tidy(s5, 1) && has_triple(s5, (ax, ay, az)) && after(s2, s5, 1)) by {
        broadcast use group_emitted;

    }
    lemma_pulls(bodies, bodies.len(), entity, p, g, (ax, ay, az), s5);
    let (s6, a) = pulls(bodies, bodies.len(), entity, p, g, (ax, ay, az), s5);
    lemma_advance(v, a, dt, s6);
    let (s7, nv) = advance(v, a, dt, s6);
    lemma_advance(p, nv, dt, s7);
    let (s8, np) = advance(p, nv, dt, s7);
    lemma_triple_write(entity, 3, nv, s8);
    lemma_triple_write(entity, 0, np, triple_write(entity, 3, nv, s8));
}

pub proof fn lemma_empty()
    ensures
        tidy(resumed(Seq::empty()), 1),
        resumed(Seq::empty()) == (Emit { next: 1, out: Seq::empty() }),
{
    reveal(tidy);
    reveal_with_fuel(max_result, 1);
}

proof fn lemma_limbs(limbs: Seq<u32>, n: nat, s: Emit)
    requires
        tidy(s, 1),
    ensures
        ({
            let (t, regs) = limb_consts(limbs, n, s);
            tidy(t, 1) && has_all(t, 1, regs) && after(s, t, 1)
        }),
    decreases n,
{
    if n > 0 && n <= limbs.len() {
        lemma_limbs(limbs, (n - 1) as nat, s);
        broadcast use lemma_result;

    }
}

proof fn lemma_activations(operands: Seq<u32>, n: nat, entity: u128, s: Emit)
    requires
        tidy(s, 1),
        has_all(s, 1, operands),
    ensures
        tidy(activations(operands, n, entity, s), 1),
        after(s, activations(operands, n, entity, s), 1),
    decreases n,
{
    if n > 0 {
        lemma_activations(operands, (n - 1) as nat, entity, s);
        let s1 = activations(operands, (n - 1) as nat, entity, s);
        assert(has_all(s1, 1, operands));
        broadcast use lemma_result;

    }
}

proof fn lemma_schedule(s: Emit, every: u64, phase: Real)
    requires
        tidy(s, 1),
    ensures
        ({
            let (t, skip) = schedule_of(s, every, phase);
            &&& tidy(t, 1)
            &&& after(s, t, 1)
            &&& t.out.len() > s.out.len()
            &&& branches(t.out, Some((skip, (t.out.len() - 1) as nat)))
        }),
{
    let (s1, step) = op_of(s, Opcode::Step, Seq::empty());
    let (s2, n) = const_of(s1, Real::Nat(every));
    let (s3, rem) = op_of(s2, Opcode::Rem, seq![step, n]);
    let (s4, p) = const_of(s3, phase);
    let (s5, skip) = test_of(s4, Opcode::Ne, seq![rem, p]);
    assert(yields(s, (s5, skip), 1)) by {
        broadcast use lemma_result;

    }
    lemma_branch(s5, 1, skip);
}

proof fn lemma_branch_stays(
    a: Seq<InstructionView>,
    b: Seq<InstructionView>,
    branch: Option<(u32, nat)>,
)
    requires
        extends(a, b),
        branches(a, branch),
    ensures
        branches(b, branch),
{
    reveal(extends);
    if let Some((skip, at)) = branch {
        assert(a[at as int] == b[at as int]);
    }
}

proof fn lemma_spawn(sys: SpawnView, entity: u128, start: Seq<InstructionView>)
    requires
        tidy(resumed(start), 1),
    ensures
        made(start, spawn_lowered(sys, entity, start)),
{
    if entity != sys.on {
        lemma_ended(start);
    } else {
        let s0 = resumed(start);
        let (s1, branch) = match sys.every {
            None => (s0, None),
            Some(n) => {
                let (s, skip) = schedule_of(s0, n, Real::Nat(sys.phase));
                (s, Some((skip, (s.out.len() - 1) as nat)))
            },
        };
        if let Some(n) = sys.every {
            lemma_schedule(s0, n, Real::Nat(sys.phase));
        }
        assert(tidy(s1, 1) && branches(s1.out, branch) && after(s0, s1, 1));
        lemma_limbs(sys.limbs, sys.limbs.len(), s1);
        let (s2, limbs) = limb_consts(sys.limbs, sys.limbs.len(), s1);
        let (s3, count) = const_u64_of(s2, sys.count as u64);
        assert(yields(s2, (s3, count), 1)) by {
            broadcast use lemma_result;

        }
        let n = if sys.per_step == 0 {
            1
        } else {
            sys.per_step as nat
        };
        lemma_activations(limbs.push(count), n, entity, s3);
        let s4 = activations(limbs.push(count), n, entity, s3);
        lemma_resume(s4);
        lemma_branch_stays(s1.out, s4.out, branch);
        lemma_closed(start, s4.out, branch);
    }
}

proof fn lemma_cleared(active: u32, w: u32, s: Emit)
    requires
        tidy(s, 1),
        has(s, 1, active),
        has(s, 1, w),
    ensures
        ({
            let (s, zero) = bits_of(s, ZERO);
            let (s, one) = bits_of(s, ONE);
            let (s, is_active) = test_of(s, Opcode::Ne, seq![active, zero]);
            let (s, active_flag) = op_of(s, Opcode::Select, seq![is_active, one, zero]);
            let (s, holds) = test_of(s, Opcode::Ne, seq![w, zero]);
            let (s, when_flag) = op_of(s, Opcode::Select, seq![holds, one, zero]);
            let (s, both) = op_of(s, Opcode::Mul, seq![active_flag, when_flag]);
            let (s, value) = op_of(s, Opcode::Select, seq![both, zero, active_flag]);
            tidy(s, 1) && has(s, 1, value)
        }),
        ({
            let (t, zero) = bits_of(s, ZERO);
            let (t, one) = bits_of(t, ONE);
            let (t, is_active) = test_of(t, Opcode::Ne, seq![active, zero]);
            let (t, active_flag) = op_of(t, Opcode::Select, seq![is_active, one, zero]);
            let (t, holds) = test_of(t, Opcode::Ne, seq![w, zero]);
            let (t, when_flag) = op_of(t, Opcode::Select, seq![holds, one, zero]);
            let (t, both) = op_of(t, Opcode::Mul, seq![active_flag, when_flag]);
            let (t, value) = op_of(t, Opcode::Select, seq![both, zero, active_flag]);
            after(s, t, 1)
        }),
{
    broadcast use group_emitted;

}

proof fn lemma_despawn(
    pool_slots: Seq<u128>,
    when: ExprView,
    scope: ScopeView,
    entity: u128,
    start: Seq<InstructionView>,
)
    requires
        tidy(resumed(start), 1),
    ensures
        made(start, despawn_lowered(pool_slots, when, scope, entity, start)),
{
    if !pool_slots.contains(entity) {
        lemma_ended(start);
    } else {
        let sn = layout_of(scope.state_names_by_id, entity);
        let refs = refs_of(when, scope.entity_map, scope.state_names_by_id, no_refs());
        let slots = past(span(when, sn));
        lemma_observed(scope, entity, slots, refs, start);
        let (out, parts) = observed(scope, entity, slots, refs, start);
        let s1 = resumed(out);
        let ctx = CtxView { parts, locals: Seq::empty() };
        let (s2, active) = read_of(s1, entity, ComponentView::Active, 0);
        assert(yields(s1, (s2, active), 1)) by {
            broadcast use lemma_result;

        }
        assert(knows(ctx, s2, 1));
        lemma_expr(when, ctx, s2, 1);
        let (s3, w) = lower_expr_spec(when, ctx, s2);
        lemma_cleared(active, w, s3);
        let (s, zero) = bits_of(s3, ZERO);
        let (s, one) = bits_of(s, ONE);
        let (s, is_active) = test_of(s, Opcode::Ne, seq![active, zero]);
        let (s, active_flag) = op_of(s, Opcode::Select, seq![is_active, one, zero]);
        let (s, holds) = test_of(s, Opcode::Ne, seq![w, zero]);
        let (s, when_flag) = op_of(s, Opcode::Select, seq![holds, one, zero]);
        let (s, both) = op_of(s, Opcode::Mul, seq![active_flag, when_flag]);
        let (s, value) = op_of(s, Opcode::Select, seq![both, zero, active_flag]);
        lemma_written(s, entity, ComponentView::Active, 0, value);
    }
}

/// A write and the end behind it.
pub proof fn lemma_written(s: Emit, entity: u128, component: ComponentView, offset: u32, r: u32)
    requires
        tidy(s, 1),
        has(s, 1, r),
    ensures
        tidy(write_of(s, entity, component, offset, r), 1),
        after(s, write_of(s, entity, component, offset, r), 1),
        made(s.out, return_of(write_of(s, entity, component, offset, r)).out),
{
    assert(tidy(write_of(s, entity, component, offset, r), 1) && after(
        s,
        write_of(s, entity, component, offset, r),
        1,
    )) by {
        broadcast use group_emitted;

    }
    lemma_done(write_of(s, entity, component, offset, r));
}

proof fn lemma_solver(
    s: Emit,
    opcode: Opcode,
    operands: Seq<u32>,
    field: Seq<char>,
    width: u32,
)
    requires
        tidy(s, 1),
        has_all(s, 1, operands),
    ensures
        made(s.out, solver(s, opcode, operands, field, width)),
{
    let t = effect_of(s, opcode, operands, Some(at(0, ComponentView::Field(field), width)));
    assert(tidy(t, 1) && after(s, t, 1)) by {
        broadcast use lemma_effect;

    }
    lemma_done(t);
}

proof fn lemma_diffuse(
    field: Seq<char>,
    rate: u64,
    width: u32,
    run_on: u128,
    entity: u128,
    start: Seq<InstructionView>,
)
    requires
        tidy(resumed(start), 1),
    ensures
        made(start, diffuse_lowered(field, rate, width, run_on, entity, start)),
{
    if entity != run_on {
        lemma_ended(start);
    } else {
        let (s, r) = const_of(resumed(start), Real::Bits(rate));
        assert(yields(resumed(start), (s, r), 1)) by {
            broadcast use lemma_result;

        }
        lemma_solver(s, Opcode::FieldDiffuse, seq![r], field, width);
    }
}

proof fn lemma_field_limbs(field: Option<Seq<char>>, n: nat, s: Emit)
    requires
        tidy(s, 1),
    ensures
        ({
            let (t, regs) = field_limbs(field, n, s);
            tidy(t, 1) && has_all(t, 1, regs) && after(s, t, 1)
        }),
    decreases n,
{
    if n > 0 {
        lemma_field_limbs(field, (n - 1) as nat, s);
        broadcast use lemma_result;

    }
}

proof fn lemma_poisson(
    field: Seq<char>,
    source: Option<Seq<char>>,
    iters: u32,
    scale: u64,
    width: u32,
    run_on: u128,
    entity: u128,
    start: Seq<InstructionView>,
)
    requires
        tidy(resumed(start), 1),
    ensures
        made(
            start,
            poisson_lowered(field, source, iters, scale, width, run_on, entity, start),
        ),
{
    if entity != run_on {
        lemma_ended(start);
    } else {
        lemma_field_limbs(source, 4, resumed(start));
        let (s, limbs) = field_limbs(source, 4, resumed(start));
        let (s1, n) = const_u64_of(s, iters as u64);
        let (s2, factor) = const_of(s1, Real::Bits(scale));
        assert(tidy(s2, 1) && has(s2, 1, n) && has(s2, 1, factor) && after(s, s2, 1)) by {
            broadcast use lemma_result;

        }
        assert(has_all(s2, 1, limbs.push(n).push(factor)));
        lemma_solver(s2, Opcode::FieldPoisson, limbs.push(n).push(factor), field, width);
    }
}

proof fn lemma_wave(sys: WaveView, entity: u128, start: Seq<InstructionView>)
    requires
        tidy(resumed(start), 1),
    ensures
        made(start, wave_lowered(sys, entity, start)),
{
    if entity != sys.run_on {
        lemma_ended(start);
    } else {
        lemma_field_limbs(Some(sys.prev), 4, resumed(start));
        let (s, limbs) = field_limbs(Some(sys.prev), 4, resumed(start));
        let courant = Real::Courant { velocity: sys.velocity, dt: sys.dt, dx: sys.dx };
        let (s1, cfl) = const_of(s, courant);
        let (s2, damping) = const_of(s1, Real::Bits(sys.damping));
        let (s3, absorb) = const_of(s2, Real::Bits(sys.absorb));
        let (s4, cells) = const_of(s3, Real::Nat(sys.absorb_width as u64));
        assert(tidy(s4, 1) && has(s4, 1, cfl) && has(s4, 1, damping) && has(s4, 1, absorb)
            && has(s4, 1, cells) && after(s, s4, 1)) by {
            broadcast use lemma_result;

        }
        let operands = limbs.push(cfl).push(damping).push(absorb).push(cells);
        assert(has_all(s4, 1, operands));
        lemma_solver(s4, Opcode::FieldWave, operands, sys.field, sys.width);
    }
}

proof fn lemma_recv(
    channel: u128,
    slot: usize,
    slots: usize,
    entity: u128,
    start: Seq<InstructionView>,
)
    requires
        tidy(resumed(start), 1),
    ensures
        made(start, recv_lowered(channel, slot, slots, entity, start)),
{
    lemma_slots(start, entity, slots as nat);
    let (out, slot_regs) = slot_reads(start, entity, slots as nat);
    let (s, r) = read_of(resumed(out), channel, ComponentView::State, slot_offset(0));
    assert(yields(resumed(out), (s, r), 1)) by {
        broadcast use lemma_result;

    }
    lemma_written(s, entity, ComponentView::State, slot_offset(slot), r);
}

proof fn lemma_send(
    channel: u128,
    value: Option<ExprView>,
    slots: usize,
    scope: ScopeView,
    state_names: Layout,
    entity: u128,
    start: Seq<InstructionView>,
)
    requires
        tidy(resumed(start), 1),
    ensures
        made(start, send_lowered(channel, value, slots, scope, state_names, entity, start)),
{
    match value {
        None => {
            lemma_slots(start, entity, slots as nat);
            lemma_ended(slot_reads(start, entity, slots as nat).0);
        },
        Some(e) => {
            let refs = refs_of(e, scope.entity_map, scope.state_names_by_id, no_refs());
            let n = at_least(slots, past(span(e, state_names)));
            lemma_observed(scope, entity, n, refs, start);
            let (out, common) = observed(scope, entity, n, refs, start);
            let parts = PartsView { state_names, ..common };
            let ctx = CtxView { parts, locals: Seq::empty() };
            assert(knows(ctx, resumed(out), 1));
            lemma_expr(e, ctx, resumed(out), 1);
            let (s, r) = lower_expr_spec(e, ctx, resumed(out));
            lemma_written(s, channel, ComponentView::State, slot_offset(0), r);
        },
    }
}

pub proof fn lemma_observed(
    scope: ScopeView,
    entity: u128,
    slots: usize,
    refs: RefsView,
    start: Seq<InstructionView>,
)
    requires
        tidy(resumed(start), 1),
    ensures
        ({
            let (out, parts) = observed(scope, entity, slots, refs, start);
            grown(start, out) && knows_parts(parts, resumed(out), 1)
        }),
{
    lemma_slots(start, entity, slots as nat);
    let (out1, slot_regs) = slot_reads(start, entity, slots as nat);
    lemma_keys(out1, refs.slots, refs.slots.len());
    let (out2, ref_regs) = key_reads(out1, refs.slots, refs.slots.len());
    lemma_keys(out2, refs.props, refs.props.len());
    let (out3, prop_regs) = key_reads(out2, refs.props, refs.props.len());
    lemma_keys_stay(ref_regs, resumed(out2), resumed(out3));
}

pub proof fn lemma_keys_stay(regs: Seq<(u128, PropKind, u32)>, s: Emit, t: Emit)
    requires
        knows_keys(regs, s, 1),
        after(s, t, 1),
    ensures
        knows_keys(regs, t, 1),
{
}

proof fn lemma_verdict(value: u32, s: Emit)
    requires
        tidy(s, 1),
        has(s, 1, value),
    ensures
        ({
            let (s, zero) = bits_of(s, ZERO);
            let (s, one) = bits_of(s, ONE);
            let (s, violated) = test_of(s, Opcode::Eq, seq![value, zero]);
            let (s, verdict) = op_of(s, Opcode::Select, seq![violated, one, zero]);
            tidy(s, 1) && has(s, 1, verdict)
        }),
        ({
            let (t, zero) = bits_of(s, ZERO);
            let (t, one) = bits_of(t, ONE);
            let (t, violated) = test_of(t, Opcode::Eq, seq![value, zero]);
            let (t, verdict) = op_of(t, Opcode::Select, seq![violated, one, zero]);
            after(s, t, 1)
        }),
{
    broadcast use group_emitted;

}

proof fn lemma_invariant(
    expr: ExprView,
    lets: Seq<LetStmtView>,
    check_offset: u32,
    only: Option<Seq<u128>>,
    scope: ScopeView,
    entity: u128,
    start: Seq<InstructionView>,
)
    requires
        tidy(resumed(start), 1),
    ensures
        made(
            start,
            invariant_lowered(expr, lets, check_offset, only, scope, entity, start),
        ),
{
    if !applies(only, entity) {
        lemma_ended(start);
    } else {
        let sn = layout_of(scope.state_names_by_id, entity);
        let refs = refs_stmts(
            lets,
            lets.len(),
            scope.entity_map,
            scope.state_names_by_id,
            refs_of(expr, scope.entity_map, scope.state_names_by_id, no_refs()),
        );
        let slots = past(later(span(expr, sn), span_stmts(lets, lets.len(), sn)));
        lemma_observed(scope, entity, slots, refs, start);
        let (out, parts) = observed(scope, entity, slots, refs, start);
        lemma_stmts(lets, lets.len(), None, parts, resumed(out), Seq::empty(), 1);
        let b = lower_stmts(lets, lets.len(), None, parts, resumed(out), Seq::empty());
        let ctx = CtxView { parts, locals: b.locals };
        lemma_parts_stay(parts, resumed(out), b.s);
        lemma_expr(expr, ctx, b.s, 1);
        let (s, value) = lower_expr_spec(expr, ctx, b.s);
        lemma_verdict(value, s);
        let (s, zero) = bits_of(s, ZERO);
        let (s, one) = bits_of(s, ONE);
        let (s, violated) = test_of(s, Opcode::Eq, seq![value, zero]);
        let (s, verdict) = op_of(s, Opcode::Select, seq![violated, one, zero]);
        lemma_written(s, entity, ComponentView::Check, check_offset, verdict);
    }
}

pub proof fn lemma_parts_stay(p: PartsView, s: Emit, t: Emit)
    requires
        knows_parts(p, s, 1),
        after(s, t, 1),
    ensures
        knows_parts(p, t, 1),
{
}

pub proof fn lemma_side(opcode: Opcode, a: u32, b: u32, s: Emit)
    requires
        tidy(s, 1),
        has(s, 1, a),
        has(s, 1, b),
    ensures
        ({
            let (s1, r) = test_of(s, opcode, seq![a, b]);
            yields(s, select_bool_of(s1, r), 1)
        }),
{
    broadcast use lemma_result;

    let (s1, r) = test_of(s, opcode, seq![a, b]);
    lemma_select_bool(s1, r, 1);
}

pub proof fn lemma_pair(opcode: Opcode, a: u32, b: u32, s: Emit)
    requires
        tidy(s, 1),
        has(s, 1, a),
        has(s, 1, b),
    ensures
        yields(s, op_of(s, opcode, seq![a, b]), 1),
{
    broadcast use lemma_result;

}

pub proof fn lemma_crossing(a: u32, b: u32, s: Emit)
    requires
        tidy(s, 1),
        has(s, 1, a),
        has(s, 1, b),
    ensures
        yields(s, crossing_of(s, a, b), 1),
{
    let (s0, zero) = bits_of(s, ZERO);
    assert(yields(s, (s0, zero), 1)) by {
        broadcast use lemma_result;

    }
    lemma_side(Opcode::Lt, a, zero, s0);
    let (s1, t1) = test_of(s0, Opcode::Lt, seq![a, zero]);
    let (s1, a_below) = select_bool_of(s1, t1);
    lemma_side(Opcode::Gt, b, zero, s1);
    let (s2, t2) = test_of(s1, Opcode::Gt, seq![b, zero]);
    let (s2, b_above) = select_bool_of(s2, t2);
    lemma_pair(Opcode::Mul, a_below, b_above, s2);
    let (s3, up) = op_of(s2, Opcode::Mul, seq![a_below, b_above]);
    lemma_side(Opcode::Gt, a, zero, s3);
    let (s4, t4) = test_of(s3, Opcode::Gt, seq![a, zero]);
    let (s4, a_above) = select_bool_of(s4, t4);
    lemma_side(Opcode::Lt, b, zero, s4);
    let (s5, t5) = test_of(s4, Opcode::Lt, seq![b, zero]);
    let (s5, b_below) = select_bool_of(s5, t5);
    lemma_pair(Opcode::Mul, a_above, b_below, s5);
    let (s6, down) = op_of(s5, Opcode::Mul, seq![a_above, b_below]);
    lemma_pair(Opcode::Add, up, down, s6);
}

proof fn lemma_watch(
    expr: ExprView,
    mem: usize,
    into: usize,
    only: Option<Seq<u128>>,
    scope: ScopeView,
    entity: u128,
    start: Seq<InstructionView>,
)
    requires
        tidy(resumed(start), 1),
    ensures
        made(start, watch_lowered(expr, mem, into, only, scope, entity, start)),
{
    if !applies(only, entity) {
        lemma_ended(start);
    } else {
        let sn = layout_of(scope.state_names_by_id, entity);
        let refs = refs_of(expr, scope.entity_map, scope.state_names_by_id, no_refs());
        let slots = past(later(span(expr, sn), later(Some(mem), Some(into))));
        lemma_observed(scope, entity, slots, refs, start);
        let (out, parts) = observed(scope, entity, slots, refs, start);
        let ctx = CtxView { parts, locals: Seq::empty() };
        let s0 = resumed(out);
        assert(knows(ctx, s0, 1));
        lemma_expr(expr, ctx, s0, 1);
        let (s, v) = lower_expr_spec(expr, ctx, s0);
        lemma_knows(ctx, s0, s, 1);
        lemma_slot(ctx, mem, s, 1);
        let (s3, last) = known_of(s, slot_reg(ctx, mem));
        lemma_crossing(last, v, s3);
        let (s4, crossing) = crossing_of(s3, last, v);
        lemma_written(s4, entity, ComponentView::State, slot_offset(into), crossing);
        let s5 = write_of(s4, entity, ComponentView::State, slot_offset(into), crossing);
        lemma_written(s5, entity, ComponentView::State, slot_offset(mem), v);
    }
}

pub proof fn lemma_flag(when: Option<ExprView>, ctx: CtxView, s: Emit)
    requires
        tidy(s, 1),
        knows(ctx, s, 1),
    ensures
        ({
            let (t, flag) = flag_of(when, ctx, s);
            tidy(t, 1) && has_some(t, 1, flag) && after(s, t, 1)
        }),
{
    if let Some(w) = when {
        lemma_expr(w, ctx, s, 1);
        let (s1, r) = lower_expr_spec(w, ctx, s);
        lemma_truthy(s1, r, 1);
    }
}

pub proof fn lemma_chosen(new: u32, cur: u32, flag: Option<u32>, s: Emit)
    requires
        tidy(s, 1),
        has(s, 1, new),
        has(s, 1, cur),
        has_some(s, 1, flag),
    ensures
        yields(s, chosen(s, new, cur, flag), 1),
{
    broadcast use lemma_result;

}

pub proof fn lemma_change(u: RulesView, expr: ExprView, ctx: CtxView, s: Emit)
    requires
        tidy(s, 1),
        knows(ctx, s, 1),
    ensures
        yields(s, change_of(u, expr, ctx, s), 1),
{
    lemma_expr(expr, ctx, s, 1);
    let (s1, value) = lower_expr_spec(expr, ctx, s);
    let (s2, dt) = const_of(s1, Real::Step { dt: u.dt, substeps: u.substeps as u64 });
    assert(yields(s1, op_of(s2, Opcode::Mul, seq![value, dt]), 1)) by {
        broadcast use lemma_result;

    }
}

pub proof fn lemma_rule_values(
    u: RulesView,
    found: Seq<(usize, nat)>,
    n: nat,
    ctx: CtxView,
    flag: Option<u32>,
    s: Emit,
)
    requires
        tidy(s, 1),
        knows(ctx, s, 1),
        has_some(s, 1, flag),
        n <= found.len(),
    ensures
        ({
            let (t, values) = rule_values(u, found, n, ctx, flag, s);
            tidy(t, 1) && after(s, t, 1) && has_all(t, 1, values) && values.len() == n
        }),
    decreases n,
{
    if n > 0 {
        lemma_rule_values(u, found, (n - 1) as nat, ctx, flag, s);
        let (s1, values) = rule_values(u, found, (n - 1) as nat, ctx, flag, s);
        lemma_knows(ctx, s, s1, 1);
        let (slot, rule) = found[n - 1];
        lemma_change(u, u.rules[rule as int].1, ctx, s1);
        let (s2, change) = change_of(u, u.rules[rule as int].1, ctx, s1);
        lemma_knows(ctx, s1, s2, 1);
        lemma_slot(ctx, slot, s2, 1);
        let (s3, cur) = known_of(s2, slot_reg(ctx, slot));
        lemma_pair(Opcode::Add, cur, change, s3);
        let (s4, sum) = op_of(s3, Opcode::Add, seq![cur, change]);
        lemma_chosen(sum, cur, flag, s4);
        let (s5, new) = chosen(s4, sum, cur, flag);
        assert(has_all(s5, 1, values.push(new)));
    }
}

proof fn lemma_moved(ri: u32, change: u32, flag: Option<u32>, entity: u128, s: Emit)
    requires
        tidy(s, 1),
        has(s, 1, ri),
        has(s, 1, change),
        has_some(s, 1, flag),
    ensures
        ({
            let target = Some(at(entity, ComponentView::State, 0));
            let (s1, cur) = result_of(
                s,
                Opcode::ReadSlotDyn,
                ValueType::F64,
                seq![ri],
                None,
                target,
            );
            let (s2, sum) = op_of(s1, Opcode::Add, seq![cur, change]);
            yields(s, chosen(s2, sum, cur, flag), 1)
        }),
{
    broadcast use lemma_result;

}

/// Whether the registers of a list of pairs may be used.
pub open spec fn has_pairs(s: Emit, first: nat, pairs: Seq<(u32, u32)>) -> bool {
    forall|k: int|
        0 <= k < pairs.len() ==> has(s, first, (#[trigger] pairs[k]).0) && has(
            s,
            first,
            pairs[k].1,
        )
}

proof fn lemma_dyn_values(
    u: RulesView,
    n: nat,
    entity: u128,
    ctx: CtxView,
    flag: Option<u32>,
    s: Emit,
)
    requires
        tidy(s, 1),
        knows(ctx, s, 1),
        has_some(s, 1, flag),
    ensures
        ({
            let (t, pairs) = dyn_values(u, n, entity, ctx, flag, s);
            tidy(t, 1) && after(s, t, 1) && has_pairs(t, 1, pairs)
        }),
    decreases n,
{
    if n > 0 && n <= u.dyn_rules.len() {
        lemma_dyn_values(u, (n - 1) as nat, entity, ctx, flag, s);
        let (s1, pairs) = dyn_values(u, (n - 1) as nat, entity, ctx, flag, s);
        lemma_knows(ctx, s, s1, 1);
        let (index, expr) = u.dyn_rules[n - 1];
        lemma_change(u, expr, ctx, s1);
        let (s2, change) = change_of(u, expr, ctx, s1);
        lemma_knows(ctx, s1, s2, 1);
        lemma_expr(index, ctx, s2, 1);
        let (s3, ri) = lower_expr_spec(index, ctx, s2);
        lemma_moved(ri, change, flag, entity, s3);
        let (t, all) = dyn_values(u, n, entity, ctx, flag, s);
        assert(after(s1, t, 1));
        assert(has_pairs(t, 1, pairs));
    }
}

pub proof fn lemma_rule_writes(
    found: Seq<(usize, nat)>,
    values: Seq<u32>,
    n: nat,
    entity: u128,
    s: Emit,
)
    requires
        tidy(s, 1),
        has_all(s, 1, values),
        n <= found.len() == values.len(),
    ensures
        tidy(rule_writes(found, values, n, entity, s), 1),
        after(s, rule_writes(found, values, n, entity, s), 1),
    decreases n,
{
    if n > 0 {
        lemma_rule_writes(found, values, (n - 1) as nat, entity, s);
        let s1 = rule_writes(found, values, (n - 1) as nat, entity, s);
        assert(has(s1, 1, values[n - 1]));
        lemma_written(s1, entity, ComponentView::State, slot_offset(found[n - 1].0), values[n - 1]);
    }
}

proof fn lemma_dyn_writes(values: Seq<(u32, u32)>, n: nat, entity: u128, s: Emit)
    requires
        tidy(s, 1),
        has_pairs(s, 1, values),
        n <= values.len(),
    ensures
        tidy(dyn_writes(values, n, entity, s), 1),
        after(s, dyn_writes(values, n, entity, s), 1),
    decreases n,
{
    if n > 0 {
        lemma_dyn_writes(values, (n - 1) as nat, entity, s);
        let s1 = dyn_writes(values, (n - 1) as nat, entity, s);
        let pair = values[n - 1];
        assert(has(s1, 1, pair.0) && has(s1, 1, pair.1));
        assert(has_all(s1, 1, seq![pair.0, pair.1]));
        broadcast use lemma_effect;

    }
}

/// Whether the registers that stay fixed over the substeps may be used.
pub open spec fn knows_frame(f: Frame, s: Emit) -> bool {
    knows_keys(f.ref_regs, s, 1) && knows_keys(f.prop_regs, s, 1)
}

pub proof fn lemma_update_substep(u: RulesView, f: Frame, out: Seq<InstructionView>)
    requires
        tidy(resumed(out), 1),
        knows_frame(f, resumed(out)),
    ensures
        grown(out, update_substep(u, f, out)),
{
    lemma_slots(out, f.entity, f.slots as nat);
    let (out1, slot_regs) = slot_reads(out, f.entity, f.slots as nat);
    let parts = PartsView {
        slot_regs,
        ref_regs: f.ref_regs,
        prop_regs: f.prop_regs,
        state_names: f.sn,
        scope: u.scope,
        current_entity: f.entity,
    };
    lemma_keys_stay(f.ref_regs, resumed(out), resumed(out1));
    lemma_keys_stay(f.prop_regs, resumed(out), resumed(out1));
    lemma_stmts(u.lets, u.lets.len(), None, parts, resumed(out1), Seq::empty(), 1);
    let b = lower_stmts(u.lets, u.lets.len(), None, parts, resumed(out1), Seq::empty());
    let ctx = CtxView { parts, locals: b.locals };
    lemma_parts_stay(parts, resumed(out1), b.s);
    lemma_flag(u.when, ctx, b.s);
    let (s1, flag) = flag_of(u.when, ctx, b.s);
    lemma_knows(ctx, b.s, s1, 1);
    let found = resolved(u.rules, u.rules.len(), f.sn);
    lemma_rule_values(u, found, found.len(), ctx, flag, s1);
    let (s2, values) = rule_values(u, found, found.len(), ctx, flag, s1);
    lemma_knows(ctx, s1, s2, 1);
    lemma_dyn_values(u, u.dyn_rules.len(), f.entity, ctx, flag, s2);
    let (s3, pairs) = dyn_values(u, u.dyn_rules.len(), f.entity, ctx, flag, s2);
    assert(has_all(s3, 1, values));
    lemma_rule_writes(found, values, found.len(), f.entity, s3);
    let s4 = rule_writes(found, values, found.len(), f.entity, s3);
    assert(has_pairs(s4, 1, pairs));
    lemma_dyn_writes(pairs, pairs.len(), f.entity, s4);
    lemma_resume(dyn_writes(pairs, pairs.len(), f.entity, s4));
}

pub proof fn lemma_update_substeps(u: RulesView, f: Frame, n: nat, out: Seq<InstructionView>)
    requires
        tidy(resumed(out), 1),
        knows_frame(f, resumed(out)),
    ensures
        grown(out, update_substeps(u, f, n, out)),
    decreases n,
{
    if n > 0 {
        lemma_update_substeps(u, f, (n - 1) as nat, out);
        let before = update_substeps(u, f, (n - 1) as nat, out);
        lemma_keys_stay(f.ref_regs, resumed(out), resumed(before));
        lemma_keys_stay(f.prop_regs, resumed(out), resumed(before));
        lemma_update_substep(u, f, before);
    }
}

proof fn lemma_opened(every: Option<u64>, start: Seq<InstructionView>)
    requires
        tidy(resumed(start), 1),
    ensures
        ({
            let (out, branch) = opened(every, start);
            grown(start, out) && branches(out, branch) && (branch matches Some((_, at))
                ==> start.len() <= at)
        }),
{
    if let Some(n) = every {
        lemma_schedule(resumed(start), n, Real::Bits(ZERO));
        lemma_resume(schedule_of(resumed(start), n, Real::Bits(ZERO)).0);
    }
}

proof fn lemma_update(u: RulesView, entity: u128, start: Seq<InstructionView>)
    requires
        tidy(resumed(start), 1),
    ensures
        made(start, update_lowered(u, entity, start)),
{
    if !applies(u.only, entity) {
        lemma_ended(start);
    } else {
        lemma_opened(u.every, start);
        let (out0, branch) = opened(u.every, start);
        let sn = layout_of(u.scope.state_names_by_id, entity);
        let refs = rule_refs(u);
        lemma_keys(out0, refs.slots, refs.slots.len());
        let (out1, ref_regs) = key_reads(out0, refs.slots, refs.slots.len());
        lemma_keys(out1, refs.props, refs.props.len());
        let (out2, prop_regs) = key_reads(out1, refs.props, refs.props.len());
        lemma_keys_stay(ref_regs, resumed(out1), resumed(out2));
        let f = Frame { entity, sn, slots: update_slots(u, sn), ref_regs, prop_regs };
        lemma_update_substeps(u, f, u.substeps as nat, out2);
        let body = update_substeps(u, f, u.substeps as nat, out2);
        lemma_branch_stays(out0, body, branch);
        lemma_closed(start, body, branch);
    }
}

/// Whether the registers of derivatives may be used.
pub open spec fn has_derivatives(s: Emit, k: Seq<Option<u32>>) -> bool {
    forall|i: int| 0 <= i < k.len() ==> has_some(s, 1, #[trigger] k[i])
}

pub proof fn lemma_scaled(shift: Real, r: u32, out: Seq<InstructionView>)
    requires
        tidy(resumed(out), 1),
        has(resumed(out), 1, r),
    ensures
        ({
            let (s, c) = const_of(resumed(out), shift);
            let (s2, m) = op_of(resumed(s.out), Opcode::Mul, seq![c, r]);
            grown(out, s2.out) && has(resumed(s2.out), 1, m)
        }),
{
    let (s, c) = const_of(resumed(out), shift);
    assert(yields(resumed(out), (s, c), 1)) by {
        broadcast use lemma_result;

    }
    lemma_resume(s);
    let (s2, m) = op_of(resumed(s.out), Opcode::Mul, seq![c, r]);
    assert(yields(resumed(s.out), (s2, m), 1)) by {
        broadcast use lemma_result;

    }
    lemma_resume(s2);
}

pub proof fn lemma_shifted(
    out: Seq<InstructionView>,
    y: Seq<u32>,
    k: Seq<Option<u32>>,
    shift: Real,
    n: nat,
)
    requires
        tidy(resumed(out), 1),
        has_all(resumed(out), 1, y),
        has_derivatives(resumed(out), k),
    ensures
        ({
            let (done, work) = shifted(out, y, k, shift, n);
            grown(out, done) && has_all(resumed(done), 1, work)
        }),
    decreases n,
{
    if n > 0 && n <= y.len() {
        lemma_shifted(out, y, k, shift, (n - 1) as nat);
        let (out1, work) = shifted(out, y, k, shift, (n - 1) as nat);
        let (out2, change) = match derivative(k, n - 1) {
            Some(r) => {
                let (s, c) = const_of(resumed(out1), shift);
                let (s, m) = op_of(resumed(s.out), Opcode::Mul, seq![c, r]);
                (s.out, m)
            },
            None => {
                let (s, z) = bits_of(resumed(out1), ZERO);
                (s.out, z)
            },
        };
        assert(grown(out1, out2) && has(resumed(out2), 1, change)) by {
            match derivative(k, n - 1) {
                Some(r) => {
                    assert(has_some(resumed(out), 1, k[n - 1]));
                    lemma_scaled(shift, r, out1);
                },
                None => {
                    let (s, z) = bits_of(resumed(out1), ZERO);
                    assert(yields(resumed(out1), (s, z), 1)) by {
                        broadcast use lemma_result;

                    }
                    lemma_resume(s);
                },
            }
        }
        assert(has(resumed(out), 1, y[n - 1]));
        let (s, w) = op_of(resumed(out2), Opcode::Add, seq![y[n - 1], change]);
        assert(yields(resumed(out2), (s, w), 1)) by {
            broadcast use lemma_result;

        }
        lemma_resume(s);
    }
}

pub proof fn lemma_derivatives(
    u: RulesView,
    found: Seq<(usize, nat)>,
    n: nat,
    slots: usize,
    ctx: CtxView,
    s: Emit,
)
    requires
        tidy(s, 1),
        knows(ctx, s, 1),
    ensures
        ({
            let (t, k) = derivatives(u, found, n, slots, ctx, s);
            tidy(t, 1) && has_derivatives(t, k) && after(s, t, 1)
        }),
    decreases n,
{
    if n > 0 && n <= found.len() {
        lemma_derivatives(u, found, (n - 1) as nat, slots, ctx, s);
        let (s1, k) = derivatives(u, found, (n - 1) as nat, slots, ctx, s);
        lemma_knows(ctx, s, s1, 1);
        let (slot, rule) = found[n - 1];
        lemma_expr(u.rules[rule as int].1, ctx, s1, 1);
        let (s2, r) = lower_expr_spec(u.rules[rule as int].1, ctx, s1);
        let next = if slot < k.len() {
            k.update(slot as int, Some(r))
        } else {
            k
        };
        assert forall|i: int| 0 <= i < next.len() implies has_some(s2, 1, #[trigger] next[i]) by {
            assert(has_some(s1, 1, k[i]));
        }
    }
}

pub proof fn lemma_stage(u: RulesView, f: Frame, work: Seq<u32>, out: Seq<InstructionView>)
    requires
        tidy(resumed(out), 1),
        knows_frame(f, resumed(out)),
        has_all(resumed(out), 1, work),
    ensures
        ({
            let (done, k) = stage(u, f, work, out);
            grown(out, done) && has_derivatives(resumed(done), k)
        }),
{
    let parts = PartsView {
        slot_regs: work,
        ref_regs: f.ref_regs,
        prop_regs: f.prop_regs,
        state_names: f.sn,
        scope: u.scope,
        current_entity: f.entity,
    };
    lemma_stmts(u.lets, u.lets.len(), None, parts, resumed(out), Seq::empty(), 1);
    let b = lower_stmts(u.lets, u.lets.len(), None, parts, resumed(out), Seq::empty());
    let ctx = CtxView { parts, locals: b.locals };
    lemma_parts_stay(parts, resumed(out), b.s);
    let found = resolved(u.rules, u.rules.len(), f.sn);
    lemma_derivatives(u, found, found.len(), f.slots, ctx, b.s);
    let (s, k) = derivatives(u, found, found.len(), f.slots, ctx, b.s);
    lemma_resume(s);
    assert forall|i: int| 0 <= i < k.len() implies has_some(
        resumed(s.out),
        1,
        #[trigger] k[i],
    ) by {
        assert(has_some(s, 1, k[i]));
    }
}

pub proof fn lemma_rk4_flag(u: RulesView, f: Frame, out: Seq<InstructionView>)
    requires
        tidy(resumed(out), 1),
        knows_frame(f, resumed(out)),
    ensures
        ({
            let (done, flag) = rk4_flag(u, f, out);
            grown(out, done) && has_some(resumed(done), 1, flag)
        }),
{
    if let Some(w) = u.when {
        let n = past(span_cond(u.when, f.sn)) as nat;
        lemma_slots(out, f.entity, n);
        let (out1, slot_regs) = slot_reads(out, f.entity, n);
        let parts = PartsView {
            slot_regs,
            ref_regs: f.ref_regs,
            prop_regs: f.prop_regs,
            state_names: f.sn,
            scope: u.scope,
            current_entity: f.entity,
        };
        let ctx = CtxView { parts, locals: Seq::empty() };
        lemma_keys_stay(f.ref_regs, resumed(out), resumed(out1));
        lemma_keys_stay(f.prop_regs, resumed(out), resumed(out1));
        assert(knows(ctx, resumed(out1), 1));
        lemma_expr(w, ctx, resumed(out1), 1);
        let (s, r) = lower_expr_spec(w, ctx, resumed(out1));
        lemma_truthy(s, r, 1);
        lemma_resume(truthy_of(s, r).0);
    }
}

/// Whether the registers of several lists of derivatives may be used.
pub open spec fn has_stages(s: Emit, ks: Seq<Seq<Option<u32>>>) -> bool {
    ks.len() == 4 && has_derivatives(s, ks[0]) && has_derivatives(s, ks[1]) && has_derivatives(
        s,
        ks[2],
    ) && has_derivatives(s, ks[3])
}

pub proof fn lemma_weight(ks: Seq<Seq<Option<u32>>>, j: int, slot: usize, s: Emit, t: Emit)
    requires
        tidy(t, 1),
        after(s, t, 1),
        has_stages(s, ks),
        0 <= j < 4,
    ensures
        yields(t, known_of(t, weights(ks, j, slot)), 1),
{
    if slot < ks[j].len() {
        assert(has_some(s, 1, ks[j][slot as int]));
    }
    lemma_known(t, 1, weights(ks, j, slot));
}

proof fn lemma_weighted(u: RulesView, w: (u32, u32, u32, u32), s: Emit)
    requires
        tidy(s, 1),
        has(s, 1, w.0),
        has(s, 1, w.1),
        has(s, 1, w.2),
        has(s, 1, w.3),
    ensures
        ({
            let (s1, c2) = bits_of(s, TWO);
            let (s2, two_k2) = op_of(s1, Opcode::Mul, seq![c2, w.1]);
            let (s3, c3) = bits_of(s2, TWO);
            let (s4, two_k3) = op_of(s3, Opcode::Mul, seq![c3, w.2]);
            let (s5, a) = op_of(s4, Opcode::Add, seq![w.0, two_k2]);
            let (s6, b) = op_of(s5, Opcode::Add, seq![two_k3, w.3]);
            let (s7, sum) = op_of(s6, Opcode::Add, seq![a, b]);
            let (s8, c6) = const_of(
                s7,
                Real::StepOver { dt: u.dt, substeps: u.substeps as u64, by: 6 },
            );
            yields(s, op_of(s8, Opcode::Mul, seq![c6, sum]), 1)
        }),
{
    broadcast use group_emitted;

}

pub proof fn lemma_combined(
    u: RulesView,
    slot: usize,
    y: u32,
    ks: Seq<Seq<Option<u32>>>,
    flag: Option<u32>,
    s: Emit,
)
    requires
        tidy(s, 1),
        may(s, 1, y),
        has_stages(s, ks),
        has_some(s, 1, flag),
    ensures
        yields(s, combined(u, slot, y, ks, flag, s), 1),
{
    lemma_known(s, 1, y);
    let (sy, cur) = known_of(s, y);
    lemma_weight(ks, 0, slot, s, sy);
    let (sa, k1) = known_of(sy, weights(ks, 0, slot));
    lemma_weight(ks, 1, slot, s, sa);
    let (sb, k2) = known_of(sa, weights(ks, 1, slot));
    lemma_weight(ks, 2, slot, s, sb);
    let (sc, k3) = known_of(sb, weights(ks, 2, slot));
    lemma_weight(ks, 3, slot, s, sc);
    let (sd, k4) = known_of(sc, weights(ks, 3, slot));
    lemma_weighted(u, (k1, k2, k3, k4), sd);
    let (s1, c2) = bits_of(sd, TWO);
    let (s2, two_k2) = op_of(s1, Opcode::Mul, seq![c2, k2]);
    let (s3, c3) = bits_of(s2, TWO);
    let (s4, two_k3) = op_of(s3, Opcode::Mul, seq![c3, k3]);
    let (s5, a) = op_of(s4, Opcode::Add, seq![k1, two_k2]);
    let (s6, b) = op_of(s5, Opcode::Add, seq![two_k3, k4]);
    let (s7, sum) = op_of(s6, Opcode::Add, seq![a, b]);
    let (s8, c6) = const_of(
        s7,
        Real::StepOver { dt: u.dt, substeps: u.substeps as u64, by: 6 },
    );
    let (s9, change) = op_of(s8, Opcode::Mul, seq![c6, sum]);
    lemma_pair(Opcode::Add, cur, change, s9);
    let (s10, new) = op_of(s9, Opcode::Add, seq![cur, change]);
    lemma_chosen(new, cur, flag, s10);
}

pub proof fn lemma_derivatives_stay(k: Seq<Option<u32>>, s: Emit, t: Emit)
    requires
        has_derivatives(s, k),
        after(s, t, 1),
    ensures
        has_derivatives(t, k),
{
    assert forall|i: int| 0 <= i < k.len() implies has_some(t, 1, #[trigger] k[i]) by {
        assert(has_some(s, 1, k[i]));
    }
}

pub proof fn lemma_combined_writes(
    u: RulesView,
    f: Frame,
    n: nat,
    y: Seq<u32>,
    ks: Seq<Seq<Option<u32>>>,
    flag: Option<u32>,
    out: Seq<InstructionView>,
)
    requires
        tidy(resumed(out), 1),
        has_all(resumed(out), 1, y),
        has_stages(resumed(out), ks),
        has_some(resumed(out), 1, flag),
    ensures
        grown(out, combined_writes(u, f, n, y, ks, flag, out)),
    decreases n,
{
    let found = resolved(u.rules, u.rules.len(), f.sn);
    if n > 0 && n <= found.len() {
        lemma_combined_writes(u, f, (n - 1) as nat, y, ks, flag, out);
        let out1 = combined_writes(u, f, (n - 1) as nat, y, ks, flag, out);
        lemma_derivatives_stay(ks[0], resumed(out), resumed(out1));
        lemma_derivatives_stay(ks[1], resumed(out), resumed(out1));
        lemma_derivatives_stay(ks[2], resumed(out), resumed(out1));
        lemma_derivatives_stay(ks[3], resumed(out), resumed(out1));
        let slot = found[n - 1].0;
        assert(may(resumed(out1), 1, held(y, slot))) by {
            if slot < y.len() {
                assert(has(resumed(out), 1, y[slot as int]));
            }
        }
        lemma_combined(u, slot, held(y, slot), ks, flag, resumed(out1));
        let (s, new) = combined(u, slot, held(y, slot), ks, flag, resumed(out1));
        lemma_written(s, f.entity, ComponentView::State, slot_offset(slot), new);
        lemma_resume(write_of(s, f.entity, ComponentView::State, slot_offset(slot), new));
    }
}

pub proof fn lemma_regs_stay(regs: Seq<u32>, s: Emit, t: Emit)
    requires
        has_all(s, 1, regs),
        after(s, t, 1),
    ensures
        has_all(t, 1, regs),
{
    assert forall|i: int| 0 <= i < regs.len() implies has(t, 1, #[trigger] regs[i]) by {
        assert(has(s, 1, regs[i]));
    }
}

pub proof fn lemma_rk4_substep(u: RulesView, f: Frame, out: Seq<InstructionView>)
    requires
        tidy(resumed(out), 1),
        knows_frame(f, resumed(out)),
    ensures
        grown(out, rk4_substep(u, f, out)),
{
    let half = Real::StepOver { dt: u.dt, substeps: u.substeps as u64, by: 2 };
    let full = Real::Step { dt: u.dt, substeps: u.substeps as u64 };
    lemma_slots(out, f.entity, f.slots as nat);
    let (out0, y) = slot_reads(out, f.entity, f.slots as nat);
    lemma_frame_stays(f, resumed(out), resumed(out0));
    lemma_stage(u, f, y, out0);
    let (out1, k1) = stage(u, f, y, out0);
    lemma_regs_stay(y, resumed(out0), resumed(out1));
    lemma_shifted(out1, y, k1, half, y.len());
    let (out2, w2) = shifted(out1, y, k1, half, y.len());
    lemma_frame_stays(f, resumed(out0), resumed(out2));
    lemma_stage(u, f, w2, out2);
    let (out3, k2) = stage(u, f, w2, out2);
    lemma_regs_stay(y, resumed(out1), resumed(out3));
    lemma_shifted(out3, y, k2, half, y.len());
    let (out4, w3) = shifted(out3, y, k2, half, y.len());
    lemma_frame_stays(f, resumed(out2), resumed(out4));
    lemma_stage(u, f, w3, out4);
    let (out5, k3) = stage(u, f, w3, out4);
    lemma_regs_stay(y, resumed(out3), resumed(out5));
    lemma_shifted(out5, y, k3, full, y.len());
    let (out6, w4) = shifted(out5, y, k3, full, y.len());
    lemma_frame_stays(f, resumed(out4), resumed(out6));
    lemma_stage(u, f, w4, out6);
    let (out7, k4) = stage(u, f, w4, out6);
    lemma_frame_stays(f, resumed(out6), resumed(out7));
    lemma_rk4_flag(u, f, out7);
    let (out8, flag) = rk4_flag(u, f, out7);
    lemma_regs_stay(y, resumed(out5), resumed(out8));
    lemma_derivatives_stay(k1, resumed(out1), resumed(out8));
    lemma_derivatives_stay(k2, resumed(out3), resumed(out8));
    lemma_derivatives_stay(k3, resumed(out5), resumed(out8));
    lemma_derivatives_stay(k4, resumed(out7), resumed(out8));
    let found = resolved(u.rules, u.rules.len(), f.sn);
    lemma_combined_writes(u, f, found.len(), y, seq![k1, k2, k3, k4], flag, out8);
}

pub proof fn lemma_frame_stays(f: Frame, s: Emit, t: Emit)
    requires
        knows_frame(f, s),
        after(s, t, 1),
    ensures
        knows_frame(f, t),
{
    lemma_keys_stay(f.ref_regs, s, t);
    lemma_keys_stay(f.prop_regs, s, t);
}

pub proof fn lemma_rk4_substeps(u: RulesView, f: Frame, n: nat, out: Seq<InstructionView>)
    requires
        tidy(resumed(out), 1),
        knows_frame(f, resumed(out)),
    ensures
        grown(out, rk4_substeps(u, f, n, out)),
    decreases n,
{
    if n > 0 {
        lemma_rk4_substeps(u, f, (n - 1) as nat, out);
        let before = rk4_substeps(u, f, (n - 1) as nat, out);
        lemma_frame_stays(f, resumed(out), resumed(before));
        lemma_rk4_substep(u, f, before);
    }
}

proof fn lemma_rk4(u: RulesView, entity: u128, start: Seq<InstructionView>)
    requires
        tidy(resumed(start), 1),
    ensures
        made(start, rk4_lowered(u, entity, start)),
{
    if !applies(u.only, entity) {
        lemma_ended(start);
    } else {
        lemma_opened(u.every, start);
        let (out0, branch) = opened(u.every, start);
        let sn = layout_of(u.scope.state_names_by_id, entity);
        let refs = rule_refs(u);
        lemma_keys(out0, refs.slots, refs.slots.len());
        let (out1, ref_regs) = key_reads(out0, refs.slots, refs.slots.len());
        lemma_keys(out1, refs.props, refs.props.len());
        let (out2, prop_regs) = key_reads(out1, refs.props, refs.props.len());
        lemma_keys_stay(ref_regs, resumed(out1), resumed(out2));
        let f = Frame { entity, sn, slots: rk4_slots(u, sn), ref_regs, prop_regs };
        lemma_rk4_substeps(u, f, u.substeps as nat, out2);
        let body = rk4_substeps(u, f, u.substeps as nat, out2);
        lemma_branch_stays(out0, body, branch);
        lemma_closed(start, body, branch);
    }
}

proof fn lemma_system(s: SystemView, entity: u128, start: Seq<InstructionView>)
    requires
        tidy(resumed(start), 1),
    ensures
        made(start, system_code(s, entity, start)),
{
    match s {
        SystemView::Gravity(g) => {
            lemma_kick(entity, VEL_Y, g.gravity_y, g.dt, resumed(start));
            lemma_done(kick(entity, VEL_Y, g.gravity_y, g.dt, resumed(start)));
        },
        SystemView::Force(f) => {
            lemma_push_axis(entity, VEL_X, f.ax, f.dt, start);
            let out = push_axis(entity, VEL_X, f.ax, f.dt, start);
            lemma_push_axis(entity, VEL_Y, f.ay, f.dt, out);
            let out = push_axis(entity, VEL_Y, f.ay, f.dt, out);
            lemma_push_axis(entity, VEL_Z, f.az, f.dt, out);
            lemma_ended(push_axis(entity, VEL_Z, f.az, f.dt, out));
        },
        SystemView::Linear { rows, slots, dt } => {
            lemma_slots(start, entity, slots as nat);
            lemma_slot_reads_len(start, entity, slots as nat);
            let (out, regs) = slot_reads(start, entity, slots as nat);
            lemma_linear_rows(rows, slots, dt, regs, row_count(rows.len(), slots), entity, out);
            lemma_ended(
                linear_rows(rows, slots, dt, regs, row_count(rows.len(), slots), entity, out),
            );
        },
        SystemView::Integrate(i) => {
            lemma_drift(entity, POS_X, VEL_X, i.dt, start);
            let out = drift(entity, POS_X, VEL_X, i.dt, start);
            lemma_drift(entity, POS_Y, VEL_Y, i.dt, out);
            let out = drift(entity, POS_Y, VEL_Y, i.dt, out);
            lemma_drift(entity, POS_Z, VEL_Z, i.dt, out);
            lemma_ended(drift(entity, POS_Z, VEL_Z, i.dt, out));
        },
        SystemView::Damping(d) => {
            lemma_drag(entity, VEL_X, d.factor, start);
            let out = drag(entity, VEL_X, d.factor, start);
            lemma_drag(entity, VEL_Y, d.factor, out);
            let out = drag(entity, VEL_Y, d.factor, out);
            lemma_drag(entity, VEL_Z, d.factor, out);
            lemma_ended(drag(entity, VEL_Z, d.factor, out));
        },
        SystemView::GroundContact(g) => {
            lemma_ground(g.restitution, entity, resumed(start));
            lemma_done(ground(g.restitution, entity, resumed(start)));
        },
        SystemView::Wall(w) => {
            lemma_wall_pair(entity, POS_X, VEL_X, w.x, w.restitution, resumed(start));
            let s = wall_pair(entity, POS_X, VEL_X, w.x, w.restitution, resumed(start));
            lemma_wall_pair(entity, POS_Z, VEL_Z, w.z, w.restitution, s);
            let s = wall_pair(entity, POS_Z, VEL_Z, w.z, w.restitution, s);
            lemma_wall_floor(entity, w.y_min, w.restitution, s);
            lemma_done(s);
            lemma_done(wall_floor(entity, w.y_min, w.restitution, s));
        },
        SystemView::Nbody { bodies, g, dt } => {
            lemma_ended(start);
            lemma_nbody(bodies, g, dt, entity, resumed(start));
            lemma_done(nbody_code(bodies, g, dt, entity, resumed(start)));
        },
        SystemView::Send { channel, value, slots, scope, state_names } => {
            lemma_send(channel, value, slots, scope, state_names, entity, start);
        },
        SystemView::Recv { channel, slot, slots } => {
            lemma_recv(channel, slot, slots, entity, start);
        },
        SystemView::Update(u) => {
            lemma_update(u, entity, start);
        },
        SystemView::Rk4(u) => {
            lemma_rk4(u, entity, start);
        },
        SystemView::Invariant { expr, lets, check_offset, only, scope } => {
            lemma_invariant(expr, lets, check_offset, only, scope, entity, start);
        },
        SystemView::Watch { expr, mem, into, only, scope } => {
            lemma_watch(expr, mem, into, only, scope, entity, start);
        },
        SystemView::Diffuse { field, rate, width, run_on, .. } => {
            lemma_diffuse(field, rate, width, run_on, entity, start);
        },
        SystemView::Poisson { field, source, iters, scale, width, run_on, .. } => {
            lemma_poisson(field, source, iters, scale, width, run_on, entity, start);
        },
        SystemView::Wave(w) => {
            lemma_wave(w, entity, start);
        },
        SystemView::Spawn(p) => {
            lemma_spawn(p, entity, start);
        },
        SystemView::Despawn { pool_slots, when, scope } => {
            lemma_despawn(pool_slots, when, scope, entity, start);
        },
    }
}

/// Whether no two instructions set one register: later ones set greater ones.
pub open spec fn set_once(code: Seq<InstructionView>) -> bool {
    forall|i: int, j: int|
        0 <= i < j < code.len() && (#[trigger] code[i]).result_type is Some && (
        #[trigger] code[j]).result_type is Some ==> code[i].result_id < code[j].result_id
}

/// Whether an instruction before an index sets a register.
pub open spec fn set_before(code: Seq<InstructionView>, n: int, r: u32) -> bool {
    exists|j: int|
        0 <= j < n && (#[trigger] code[j]).result_type is Some && code[j].result_id == r
}

/// Whether every register that is used is an argument or set before. Register zero is
/// neither.
pub open spec fn set_before_use(code: Seq<InstructionView>, arguments: nat) -> bool {
    forall|i: int, k: int|
        0 <= i < code.len() && 0 <= k < uses(code[i]).len() ==> {
            let r = #[trigger] uses(code[i])[k];
            1 <= r && (r <= arguments || set_before(code, i, r))
        }
}

proof fn lemma_fits_at(code: Seq<InstructionView>, first: nat, i: int)
    requires
        orderly(code, first),
        0 <= i < code.len(),
    ensures
        fits(code[i], level(code.take(i), first)),
    decreases code.len(),
{
    if i == code.len() - 1 {
        assert(code.take(i) =~= code.drop_last());
    } else {
        lemma_fits_at(code.drop_last(), first, i);
        assert(code.drop_last().take(i) =~= code.take(i));
    }
}

proof fn lemma_level_grows(code: Seq<InstructionView>, first: nat, i: int, j: int)
    requires
        0 <= i < j <= code.len(),
        code[i].result_type is Some,
    ensures
        level(code.take(i), first) < level(code.take(j), first),
    decreases j,
{
    assert(code.take(j).drop_last() =~= code.take(j - 1));
    if i < j - 1 {
        lemma_level_grows(code, first, i, j - 1);
    }
}

proof fn lemma_setter(code: Seq<InstructionView>, first: nat, n: int, r: u32)
    requires
        orderly(code, first),
        0 <= n <= code.len(),
        first <= r < level(code.take(n), first),
    ensures
        set_before(code, n, r),
    decreases n,
{
    if n > 0 {
        assert(code.take(n).drop_last() =~= code.take(n - 1));
        if r < level(code.take(n - 1), first) {
            lemma_setter(code, first, n - 1, r);
            let j = choose|j: int|
                0 <= j < n - 1 && (#[trigger] code[j]).result_type is Some && code[j].result_id
                    == r;
            assert(code[j].result_id == r);
        } else {
            lemma_fits_at(code, first, n - 1);
            assert(code[n - 1].result_id == r);
        }
    }
}

proof fn lemma_orderly_code(code: Seq<InstructionView>, arguments: nat)
    requires
        orderly(code, 1 + arguments),
    ensures
        set_once(code),
        set_before_use(code, arguments),
{
    let first = 1 + arguments;
    assert forall|i: int, j: int|
        0 <= i < j < code.len() && (#[trigger] code[i]).result_type is Some && (
        #[trigger] code[j]).result_type is Some implies code[i].result_id < code[j].result_id by {
        lemma_fits_at(code, first, i);
        lemma_fits_at(code, first, j);
        lemma_level_grows(code, first, i, j);
    }
    assert forall|i: int, k: int| 0 <= i < code.len() && 0 <= k < uses(code[i]).len() implies {
        let r = #[trigger] uses(code[i])[k];
        1 <= r && (r <= arguments || set_before(code, i, r))
    } by {
        lemma_fits_at(code, first, i);
        let r = uses(code[i])[k];
        if r > arguments {
            lemma_setter(code, first, i, r);
        }
    }
}

/// The code of every system for every entity ends, sets every register once, and uses
/// none that is not set before: it is in the form that single assignment asks for.
pub proof fn law_system_code_is_in_order(s: SystemView, entity: u128, pool_slots: Seq<u128>)
    requires
        guarded_code(s, entity, pool_slots).len() < u32::MAX,
    ensures
        ({
            let code = guarded_code(s, entity, pool_slots);
            &&& code.len() > 0
            &&& code.last().opcode == Opcode::Return
            &&& set_once(code)
            &&& set_before_use(code, 0)
        }),
{
    lemma_guarded(s, entity, pool_slots);
    lemma_orderly_code(guarded_code(s, entity, pool_slots), 0);
}

proof fn lemma_complete(code: Seq<InstructionView>)
    requires
        complete(code, 0),
    ensures
        tidy(resumed(code), 1),
{
    reveal(tidy);
    if small(resumed(code), 1) {
        lemma_max(code);
        lemma_level(code, 1);
    }
}

proof fn lemma_guard(entity: u128, s: Emit)
    requires
        tidy(s, 1),
    ensures
        ({
            let (t, skip) = guard_of(entity, s);
            &&& tidy(t, 1)
            &&& t.out.len() == s.out.len() + 4
            &&& branches(t.out, Some((skip, (t.out.len() - 1) as nat)))
        }),
{
    let (s1, active) = read_of(s, entity, ComponentView::Active, 0);
    let (s2, zero) = bits_of(s1, ZERO);
    let (s3, skip) = test_of(s2, Opcode::Eq, seq![active, zero]);
    assert(yields(s, (s3, skip), 1)) by {
        broadcast use lemma_result;

    }
    lemma_branch(s3, 1, skip);
}

proof fn lemma_left(start: Seq<InstructionView>, body: Seq<InstructionView>, skip: u32)
    requires
        made(start, body),
        start.len() > 0,
        branches(start, Some((skip, (start.len() - 1) as nat))),
    ensures
        complete(left_at(body, skip, start.len() - 1), 0),
        ends(left_at(body, skip, start.len() - 1)),
{
    let at = start.len() - 1;
    lemma_branch_stays(start, body, Some((skip, at as nat)));
    lemma_complete(body);
    lemma_ended(body);
    let both = ended(body);
    let i = InstructionView {
        operands: seq![skip, body.len() as u32, (at + 1) as u32],
        ..both[at]
    };
    assert(both[at] == body[at]);
    assert(uses(i) =~= uses(both[at]));
    if 1 + both.len() <= u32::MAX {
        lemma_replaced(both, 1, at, i);
    }
    let code = left_at(body, skip, at);
    assert(code[code.len() - 1] == both.last());
}

proof fn lemma_ends(code: Seq<InstructionView>)
    requires
        complete(code, 0),
    ensures
        ends(code),
{
    assert(code[code.len() - 1].opcode == Opcode::Return);
}

proof fn lemma_guarded(s: SystemView, entity: u128, pool_slots: Seq<u128>)
    ensures
        complete(guarded_code(s, entity, pool_slots), 0),
        ends(guarded_code(s, entity, pool_slots)),
{
    reveal(guarded_code);
    lemma_empty();
    if guarding(s) && pool_slots.contains(entity) {
        lemma_guard(entity, resumed(Seq::empty()));
        let (g, skip) = guard_of(entity, resumed(Seq::empty()));
        lemma_resume(g);
        lemma_system(s, entity, g.out);
        lemma_left(g.out, system_code(s, entity, g.out), skip);
    } else {
        lemma_system(s, entity, Seq::empty());
        lemma_ends(system_code(s, entity, Seq::empty()));
    }
}

/// Whether code leaves at once where a flag of an entity is zero.
pub open spec fn leaves_where_free(code: Seq<InstructionView>, entity: u128) -> bool {
    &&& code.len() > 4
    &&& code[0].opcode == Opcode::ReadView
    &&& code[0].target == Some(at(entity, ComponentView::Active, 0))
    &&& code[1].constant == Some(ImmediateView::F64(Real::Bits(ZERO)))
    &&& code[2].opcode == Opcode::Eq
    &&& code[2].operands == seq![code[0].result_id, code[1].result_id]
    &&& code[3].opcode == Opcode::CondBr
    &&& code[3].operands == seq![code[2].result_id, (code.len() - 1) as u32, 4u32]
    &&& code.last().opcode == Opcode::Return
}

proof fn lemma_leaves(entity: u128, body: Seq<InstructionView>)
    requires
        extends(guard_of(entity, resumed(Seq::empty())).0.out, body),
    ensures
        leaves_where_free(
            left_at(body, guard_of(entity, resumed(Seq::empty())).1, 3),
            entity,
        ),
{
    let (g, skip) = guard_of(entity, resumed(Seq::empty()));
    assert(g.out.len() == 4);
    assert(forall|i: int| 0 <= i < 4 ==> #[trigger] body[i] == g.out[i]) by {
        reveal(extends);
    }
    assert(body.len() >= 4) by {
        reveal(extends);
    }
    assert(ended(body).take(4) =~= g.out);
}

/// On a pool slot, the function of a system that is kept from free slots begins with a
/// test of the activation flag, and leaves at once where the flag is zero.
pub proof fn law_free_slots_are_left_alone(s: SystemView, entity: u128, pool_slots: Seq<u128>)
    requires
        guarding(s),
        pool_slots.contains(entity),
    ensures
        leaves_where_free(guarded_code(s, entity, pool_slots), entity),
{
    reveal(guarded_code);
    lemma_empty();
    lemma_guard(entity, resumed(Seq::empty()));
    let (g, skip) = guard_of(entity, resumed(Seq::empty()));
    lemma_resume(g);
    lemma_system(s, entity, g.out);
    lemma_leaves(entity, system_code(s, entity, g.out));
}

/// Every system has one function for every entity, in the order of the systems and
/// then of the entities, and the functions are numbered from one on.
pub proof fn law_one_function_per_system_and_entity(
    systems: Seq<SystemView>,
    entities: Seq<u128>,
    pool_slots: Seq<u128>,
    i: int,
    k: int,
)
    requires
        0 <= i < systems.len(),
        0 <= k < entities.len(),
    ensures
        ({
            let functions = program_functions(systems, systems.len(), entities, pool_slots);
            let ids = ids_sorted(entities, entities.len());
            let at = i * entities.len() + k;
            &&& functions.len() == systems.len() * entities.len()
            &&& 0 <= at < functions.len()
            &&& functions[at].instructions == guarded_code(systems[i], ids[k], pool_slots)
            &&& functions[at].id == (at as u64).wrapping_add(1)
        }),
{
    lemma_program_functions(systems, systems.len(), entities, pool_slots, i, k);
}

proof fn lemma_sorted_len(s: Seq<u128>, n: nat)
    requires
        n <= s.len(),
    ensures
        ids_sorted(s, n).len() == n,
    decreases n,
{
    if n > 0 {
        lemma_sorted_len(s, (n - 1) as nat);
        lemma_inserted_len(ids_sorted(s, (n - 1) as nat), s[n - 1]);
    }
}

proof fn lemma_inserted_len(s: Seq<u128>, id: u128)
    ensures
        id_insert(s, id).len() == s.len() + 1,
    decreases s.len(),
{
    if s.len() > 0 {
        lemma_inserted_len(s.drop_first(), id);
    }
}

proof fn lemma_with_entities(
    system: SystemView,
    ids: Seq<u128>,
    n: nat,
    pool_slots: Seq<u128>,
    functions: Seq<FunctionView>,
)
    requires
        n <= ids.len(),
    ensures
        ({
            let all = with_entities(system, ids, n, pool_slots, functions);
            &&& all.len() == functions.len() + n
            &&& forall|i: int| 0 <= i < functions.len() ==> #[trigger] all[i] == functions[i]
            &&& forall|k: int|
                0 <= k < n ==> (#[trigger] all[functions.len() + k]).instructions == guarded_code(
                    system,
                    ids[k],
                    pool_slots,
                ) && all[functions.len() + k].id == ((functions.len() + k) as u64).wrapping_add(1)
        }),
    decreases n,
{
    if n > 0 {
        lemma_with_entities(system, ids, (n - 1) as nat, pool_slots, functions);
        let before = with_entities(system, ids, (n - 1) as nat, pool_slots, functions);
        lemma_guarded(system, ids[n - 1], pool_slots);
        let all = with_entities(system, ids, n, pool_slots, functions);
        assert forall|k: int| 0 <= k < n implies (#[trigger] all[functions.len()
            + k]).instructions == guarded_code(system, ids[k], pool_slots) && all[functions.len()
            + k].id == ((functions.len() + k) as u64).wrapping_add(1) by {
            if k < n - 1 {
                assert(all[functions.len() + k] == before[functions.len() + k]);
            }
        }
    }
}

proof fn lemma_program_functions(
    systems: Seq<SystemView>,
    n: nat,
    entities: Seq<u128>,
    pool_slots: Seq<u128>,
    i: int,
    k: int,
)
    requires
        0 <= i < n <= systems.len(),
        0 <= k < entities.len(),
    ensures
        ({
            let functions = program_functions(systems, n, entities, pool_slots);
            let ids = ids_sorted(entities, entities.len());
            let at = i * entities.len() + k;
            &&& functions.len() == n * entities.len()
            &&& 0 <= at < functions.len()
            &&& functions[at].instructions == guarded_code(systems[i], ids[k], pool_slots)
            &&& functions[at].id == (at as u64).wrapping_add(1)
        }),
    decreases n,
{
    let ids = ids_sorted(entities, entities.len());
    lemma_sorted_len(entities, entities.len());
    let before = program_functions(systems, (n - 1) as nat, entities, pool_slots);
    lemma_with_entities(systems[n - 1], ids, ids.len(), pool_slots, before);
    let len = entities.len() as int;
    assert(before.len() == (n - 1) * len) by {
        if n > 1 {
            lemma_program_functions(systems, (n - 1) as nat, entities, pool_slots, 0, k);
        }
    }
    assert((n - 1) * len + len == n * len) by (nonlinear_arith);
    assert(i * len >= 0 && i * len + len <= n * len) by (nonlinear_arith)
        requires
            0 <= i < n,
            len > 0,
    ;
    if i < n - 1 {
        lemma_program_functions(systems, (n - 1) as nat, entities, pool_slots, i, k);
        let at = i * len + k;
        assert(program_functions(systems, n, entities, pool_slots)[at] == before[at]);
    } else {
        assert(program_functions(systems, n, entities, pool_slots)[before.len() + k].id == ((before.len()
            + k) as u64).wrapping_add(1));
    }
}

proof fn lemma_arguments(params: Seq<Seq<char>>, k: nat, argc: u32, s: Emit)
    requires
        k <= argc,
        s.next == argc.wrapping_add(1),
    ensures
        knows_locals(argument_names(params, k), s, 1 + argc as nat),
    decreases k,
{
    if k > 0 && k <= params.len() {
        lemma_arguments(params, (k - 1) as nat, argc, s);
        lemma_bound(
            argument_names(params, (k - 1) as nat),
            params[k - 1],
            k as u32,
            s,
            1 + argc as nat,
        );
    }
}

proof fn lemma_function(f: FuncView, lets: Seq<LetStmtView>, scope: ScopeView)
    ensures
        complete(function_code(f, lets, scope), (f.params.len() as u32) as nat),
{
    let argc = f.params.len() as u32;
    let first = 1 + argc as nat;
    let parts = PartsView {
        slot_regs: argument_regs(argc as nat),
        ref_regs: Seq::empty(),
        prop_regs: Seq::empty(),
        state_names: Seq::empty(),
        scope: function_scope(scope, f),
        current_entity: 0,
    };
    let s0 = Emit { next: argc.wrapping_add(1), out: Seq::empty() };
    assert(tidy(s0, first)) by {
        reveal(tidy);
    }
    let names = argument_names(f.params, argc as nat);
    lemma_arguments(f.params, argc as nat, argc, s0);
    assert(knows_parts(parts, s0, first));
    lemma_stmts(lets, lets.len(), None, parts, s0, names, first);
    let b = lower_stmts(lets, lets.len(), None, parts, s0, names);
    let ctx = CtxView { parts, locals: b.locals };
    assert(knows_parts(parts, b.s, first));
    lemma_expr(f.body, ctx, b.s, first);
    let (s, r) = lower_expr_spec(f.body, ctx, b.s);
    let t = effect_of(s, Opcode::Return, seq![r], None);
    assert(tidy(t, first)) by {
        broadcast use lemma_effect;

    }
    reveal(tidy);
}

proof fn lemma_declared(
    n: NumbersView,
    base: Seq<FunctionView>,
    funcs: Seq<FuncView>,
    scope: ScopeView,
    k: nat,
    i: int,
)
    requires
        k <= funcs.len(),
        forall|j: int|
            0 <= j < base.len() ==> complete(
                (#[trigger] base[j]).instructions,
                base[j].argument_count as nat,
            ),
        with_declared(n, base, funcs, scope, k) matches Ok(all) && 0 <= i < all.len(),
    ensures
        ({
            let f = with_declared(n, base, funcs, scope, k)->Ok_0[i];
            complete(f.instructions, f.argument_count as nat)
        }),
    decreases k,
{
    if k > 0 {
        let done = with_declared(n, base, funcs, scope, (k - 1) as nat)->Ok_0;
        if i < done.len() {
            lemma_declared(n, base, funcs, scope, (k - 1) as nat, i);
        } else {
            let f = funcs[k - 1];
            let lets = lets_of(n, f.stmts, f.stmts.len())->Ok_0;
            lemma_function(f, lets, scope);
        }
    }
}

/// Every function of a compiled program, be it of a system or declared, ends, sets
/// every register once, and uses only arguments and registers that are set before.
pub proof fn law_compiled_code_is_in_order(n: NumbersView, p: ProgramView, i: int)
    requires
        lowered_program(n, p) matches Ok(c) && 0 <= i < c.eir.functions.len()
            && c.eir.functions[i].argument_count + c.eir.functions[i].instructions.len()
            < u32::MAX,
    ensures
        ({
            let f = lowered_program(n, p)->Ok_0.eir.functions[i];
            &&& f.instructions.len() > 0
            &&& f.instructions.last().opcode == Opcode::Return
            &&& set_once(f.instructions)
            &&& set_before_use(f.instructions, f.argument_count as nat)
        }),
{
    let c = lowered_program(n, p)->Ok_0;
    let env = program_surroundings(p);
    let slots = slot_ids(p.model, p.model.pools.len());
    let base = program_functions(c.systems, c.systems.len(), env.dynamic, slots);
    lemma_base_complete(c.systems, c.systems.len(), env.dynamic, slots);
    lemma_declared(n, base, p.funcs, env.scope, p.funcs.len(), i);
    let f = c.eir.functions[i];
    lemma_orderly_code(f.instructions, f.argument_count as nat);
}

proof fn lemma_entities_complete(
    system: SystemView,
    ids: Seq<u128>,
    n: nat,
    pool_slots: Seq<u128>,
    functions: Seq<FunctionView>,
)
    requires
        forall|j: int|
            0 <= j < functions.len() ==> complete(
                (#[trigger] functions[j]).instructions,
                functions[j].argument_count as nat,
            ),
    ensures
        forall|j: int|
            0 <= j < with_entities(system, ids, n, pool_slots, functions).len() ==> complete(
                (#[trigger] with_entities(system, ids, n, pool_slots, functions)[j]).instructions,
                with_entities(system, ids, n, pool_slots, functions)[j].argument_count as nat,
            ),
    decreases n,
{
    if n > 0 && n <= ids.len() {
        lemma_entities_complete(system, ids, (n - 1) as nat, pool_slots, functions);
        lemma_guarded(system, ids[n - 1], pool_slots);
        let before = with_entities(system, ids, (n - 1) as nat, pool_slots, functions);
        let all = with_entities(system, ids, n, pool_slots, functions);
        assert forall|j: int| 0 <= j < all.len() implies complete(
            (#[trigger] all[j]).instructions,
            all[j].argument_count as nat,
        ) by {
            if j < before.len() {
                assert(all[j] == before[j]);
            }
        }
    }
}

proof fn lemma_base_complete(
    systems: Seq<SystemView>,
    n: nat,
    entities: Seq<u128>,
    pool_slots: Seq<u128>,
)
    requires
        n <= systems.len(),
    ensures
        forall|j: int|
            0 <= j < program_functions(systems, n, entities, pool_slots).len() ==> complete(
                (#[trigger] program_functions(systems, n, entities, pool_slots)[j]).instructions,
                program_functions(systems, n, entities, pool_slots)[j].argument_count as nat,
            ),
    decreases n,
{
    if n > 0 {
        lemma_base_complete(systems, (n - 1) as nat, entities, pool_slots);
        let ids = ids_sorted(entities, entities.len());
        let before = program_functions(systems, (n - 1) as nat, entities, pool_slots);
        lemma_entities_complete(systems[n - 1], ids, ids.len(), pool_slots, before);
    }
}

} // verus!
