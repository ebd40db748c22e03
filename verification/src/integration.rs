//! What the rules of `update` and `rk4` systems do to the slots of an entity, in exact
//! arithmetic.

use crate::block::lower_stmts;
use crate::eir::{slot_offset, ComponentRefView, ComponentView, InstructionView, Opcode, Real, TWO, ZERO};
use crate::emit::{bits_of, const_of, known_of, op_of, read_of, resumed, truthy_of, Emit};
use crate::evaluation::{
    about, computes, hold, law_value_depends_on_its_span, lemma_known_value, lemma_shows,
    lemma_value, names_of, plain, read_by, shows, value, Names, Sight,
};
use crate::expr::PropKind;
use crate::functions::{
    grown, has_derivatives, has_stages, knows_frame, lemma_combined, lemma_combined_writes,
    lemma_derivatives, lemma_derivatives_stay, lemma_frame_stays, lemma_pair, lemma_regs_stay,
    lemma_resume, lemma_rk4_flag, lemma_scaled, lemma_shifted, lemma_slots, lemma_stage,
    lemma_weight,
};
use crate::lower::lower_expr_spec;
use crate::meaning::{
    amount, followed, group_follow, held_by, lemma_numbers, lemma_registers_stay, lemma_run_push,
    lemma_world_stays, number_of, run, Functions, Machine,
};
use crate::motion::slot_of;
use crate::names::assoc_get;
use crate::numbering::{
    after, group_code, group_emitted, has, has_all, has_some, small, tidy, yields,
};
use crate::registers::{knows, lemma_expr, lemma_knows, lemma_truthy};
use crate::rk4::{
    combined, combined_writes, derivative, derivatives, held, rk4_flag, rk4_substep, shifted, stage,
    weights,
};
use crate::rules::{lemma_slot_reads_len, slot_reads};
use crate::scope::{prop_reg, ref_reg, slot_reg, CtxView, PartsView};
use crate::simultaneity::{
    still, lemma_combined as lemma_combined_still, lemma_rk4_flag as lemma_rk4_flag_still,
    lemma_shifted as lemma_shifted_still, lemma_slot_reads as lemma_slot_reads_still,
    lemma_stage as lemma_stage_still,
};
use crate::update::{chosen, past, resolved, rule_slot, span_cond, Frame, RulesView};
use vstd::prelude::*;

verus! {

broadcast use group_code;

/// A state: the values of the slots of an entity.
pub type State = spec_fn(usize) -> real;

/// The names that the rules of a system know in an entity.
pub open spec fn rule_names(u: RulesView, fr: Frame) -> Names {
    Names { scope: u.scope, layout: fr.sn }
}

/// What a rule sees in a state, with all else as in another sight.
pub open spec fn seen_in(v: Sight, y: State) -> Sight {
    Sight { slot: y, ..v }
}

/// The value of the last of the first `n` rules for a slot, in a state; zero without one.
pub open spec fn rate(
    u: RulesView,
    fr: Frame,
    v: Sight,
    f: Functions,
    y: State,
    slot: usize,
    n: nat,
) -> real
    decreases n,
{
    if n == 0 || n > u.rules.len() {
        0 as real
    } else if rule_slot(u.rules[n - 1].0, fr.sn) == Some(slot) {
        value(u.rules[n - 1].1, rule_names(u, fr), seen_in(v, y), f)
    } else {
        rate(u, fr, v, f, y, slot, (n - 1) as nat)
    }
}

/// The rates of all slots in a state.
pub open spec fn rates(u: RulesView, fr: Frame, v: Sight, f: Functions, y: State) -> State {
    |slot: usize| rate(u, fr, v, f, y, slot, u.rules.len())
}

/// A state moved along rates.
pub open spec fn moved(y: State, by: real, k: State) -> State {
    |slot: usize| y(slot) + by * k(slot)
}

/// Whether a slot has a rule.
pub open spec fn has_rule(u: RulesView, fr: Frame, slot: usize) -> bool {
    exists|i: int| 0 <= i < u.rules.len() && rule_slot((#[trigger] u.rules[i]).0, fr.sn) == Some(slot)
}

/// The slots of an entity in a world, those beyond a number counted as zero.
pub open spec fn slots_in(w: Map<ComponentRefView, real>, entity: u128, slots: usize) -> State {
    |slot: usize|
        if slot < slots {
            w[slot_of(entity, slot as int)]
        } else {
            0 as real
        }
}

pub proof fn lemma_offset(slot: usize, slots: usize)
    requires
        slot < slots,
        8 * slots <= u32::MAX,
    ensures
        slot_offset(slot) == 8 * slot,
{
}

pub proof fn lemma_slots_read(
    out: Seq<InstructionView>,
    entity: u128,
    n: nat,
    slots: usize,
    f: Functions,
    m: Machine,
)
    requires
        tidy(resumed(out), 1),
        n <= slots,
        8 * slots <= u32::MAX,
        1 + slot_reads(out, entity, n).0.len() < u32::MAX,
    ensures
        ({
            let (done, regs) = slot_reads(out, entity, n);
            let w = run(out, f, m).world;
            &&& grown(out, done)
            &&& has_all(resumed(done), 1, regs)
            &&& regs.len() == n
            &&& done.len() == out.len() + n
            &&& run(done, f, m).world == w
            &&& forall|i: int|
                0 <= i < n ==> run(done, f, m).regs[#[trigger] regs[i]] == w[slot_of(entity, i)]
        }),
    decreases n,
{
    lemma_slots(out, entity, n);
    lemma_slot_reads_len(out, entity, n);
    if n > 0 {
        lemma_slots_read_len(out, entity, n);
        lemma_slots_read(out, entity, (n - 1) as nat, slots, f, m);
        let (out1, regs) = slot_reads(out, entity, (n - 1) as nat);
        let offset = slot_offset((n - 1) as usize);
        lemma_offset((n - 1) as usize, slots);
        let s1 = resumed(out1);
        let (s, r) = read_of(s1, entity, ComponentView::State, offset);
        assert(held_by(s, r, f, m) == run(out1, f, m).world[slot_of(entity, n - 1)] && run(
            s.out,
            f,
            m,
        ).world == run(out1, f, m).world && tidy(s, 1) && after(s1, s, 1)) by {
            broadcast use group_follow;

            assert(followed(f, m));
        }
        lemma_registers_stay(s1, s, f, m);
        let all = regs.push(r);
        assert forall|i: int| 0 <= i < n implies run(s.out, f, m).regs[#[trigger] all[i]]
            == run(out, f, m).world[slot_of(entity, i)] by {
            if i < n - 1 {
                assert(has(s1, 1, regs[i]));
                assert(held_by(s, regs[i], f, m) == held_by(s1, regs[i], f, m));
            }
        }
    }
}

proof fn lemma_slots_read_len(out: Seq<InstructionView>, entity: u128, n: nat)
    ensures
        slot_reads(out, entity, n).0.len() == out.len() + n,
    decreases n,
{
    if n > 0 {
        lemma_slots_read_len(out, entity, (n - 1) as nat);
    }
}

/// Whether registers hold a state.
pub open spec fn holds_state(
    out: Seq<InstructionView>,
    regs: Seq<u32>,
    y: State,
    f: Functions,
    m: Machine,
) -> bool {
    &&& forall|i: int|
        0 <= i < regs.len() ==> run(out, f, m).regs[#[trigger] regs[i]] == y(i as usize)
    &&& forall|i: usize| i >= regs.len() ==> #[trigger] y(i) == 0 as real
}

/// Whether the registers of derivatives hold rates: a slot without one has none.
pub open spec fn holds_rates(
    out: Seq<InstructionView>,
    k: Seq<Option<u32>>,
    rates: State,
    f: Functions,
    m: Machine,
) -> bool {
    forall|i: int|
        0 <= i < k.len() ==> (match #[trigger] k[i] {
            Some(r) => run(out, f, m).regs[r] == rates(i as usize),
            None => rates(i as usize) == 0 as real,
        })
}

/// Whether the registers that stay fixed over a substep hold what a rule sees of other
/// entities, and the world its parameters and the clock.
pub open spec fn frame_shows(
    v: Sight,
    fr: Frame,
    out: Seq<InstructionView>,
    f: Functions,
    m: Machine,
) -> bool {
    let w = run(out, f, m).world;
    let s = resumed(out);
    let c = frame_ctx(fr);
    &&& v.local == (|name: Seq<char>| None::<real>)
    &&& forall|id: u128, slot: usize|
        (v.foreign)(id, slot) == read_by(s, #[trigger] ref_reg(c, id, slot), f, m)
    &&& forall|id: u128, kind: PropKind|
        (v.property)(id, kind) == read_by(s, #[trigger] prop_reg(c, id, kind), f, m)
    &&& forall|name: Seq<char>|
        (#[trigger] (v.param)(name)) == w[ComponentRefView {
            entity: 0,
            component: ComponentView::Param(name),
            offset: 0,
        }]
    &&& v.time == w[ComponentRefView { entity: 0, component: ComponentView::SimTime, offset: 0 }]
}

/// The context of the fixed registers alone.
pub open spec fn frame_ctx(fr: Frame) -> CtxView {
    CtxView {
        parts: PartsView {
            slot_regs: Seq::empty(),
            ref_regs: fr.ref_regs,
            prop_regs: fr.prop_regs,
            ..about(
                Names {
                    scope: arbitrary_scope(),
                    layout: fr.sn,
                },
            ).parts
        },
        locals: Seq::empty(),
    }
}

/// A scope that knows nothing.
pub open spec fn arbitrary_scope() -> crate::scope::ScopeView {
    crate::scope::ScopeView {
        entity_map: Seq::empty(),
        state_names_by_id: Seq::empty(),
        func_ids: Seq::empty(),
        field_dims: Seq::empty(),
        namespace: Seq::empty(),
        param_names: Seq::empty(),
    }
}

/// The fixed registers hold what they held, over code that only computes.
pub proof fn lemma_frame_shows(
    v: Sight,
    fr: Frame,
    a: Seq<InstructionView>,
    b: Seq<InstructionView>,
    f: Functions,
    m: Machine,
)
    requires
        frame_shows(v, fr, a, f, m),
        knows_frame(fr, resumed(a)),
        tidy(resumed(a), 1),
        grown(a, b),
        small(resumed(b), 1),
        run(b, f, m).world == run(a, f, m).world,
    ensures
        frame_shows(v, fr, b, f, m),
        knows_frame(fr, resumed(b)),
{
    let c = frame_ctx(fr);
    let s = resumed(a);
    let t = resumed(b);
    lemma_frame_stays(fr, s, t);
    lemma_registers_stay(s, t, f, m);
    assert forall|id: u128, slot: usize|
        (v.foreign)(id, slot) == read_by(t, #[trigger] ref_reg(c, id, slot), f, m) by {
        let r = ref_reg(c, id, slot);
        assert(has_some(s, 1, crate::scope::reg_get(fr.ref_regs, id, PropKind::State(slot))));
        assert(r == 0 || held_by(t, r, f, m) == held_by(s, r, f, m));
    }
    assert forall|id: u128, kind: PropKind|
        (v.property)(id, kind) == read_by(t, #[trigger] prop_reg(c, id, kind), f, m) by {
        let r = prop_reg(c, id, kind);
        assert(has_some(s, 1, crate::scope::reg_get(fr.prop_regs, id, kind)));
        assert(r == 0 || held_by(t, r, f, m) == held_by(s, r, f, m));
    }
}

/// The context in which the rules of a system are lowered.
pub open spec fn rule_ctx(u: RulesView, fr: Frame, regs: Seq<u32>) -> CtxView {
    CtxView {
        parts: PartsView {
            slot_regs: regs,
            ref_regs: fr.ref_regs,
            prop_regs: fr.prop_regs,
            state_names: fr.sn,
            scope: u.scope,
            current_entity: fr.entity,
        },
        locals: Seq::empty(),
    }
}

pub proof fn lemma_rule_ctx(
    u: RulesView,
    fr: Frame,
    regs: Seq<u32>,
    v: Sight,
    y: State,
    out: Seq<InstructionView>,
    f: Functions,
    m: Machine,
)
    requires
        frame_shows(v, fr, out, f, m),
        knows_frame(fr, resumed(out)),
        has_all(resumed(out), 1, regs),
        holds_state(out, regs, y, f, m),
        small(resumed(out), 1),
    ensures
        shows(seen_in(v, y), rule_ctx(u, fr, regs), resumed(out), f, m),
        knows(rule_ctx(u, fr, regs), resumed(out), 1),
        names_of(rule_ctx(u, fr, regs)) == rule_names(u, fr),
{
    let c = rule_ctx(u, fr, regs);
    let s = resumed(out);
    let see = seen_in(v, y);
    assert forall|i: usize| (see.slot)(i) == read_by(s, #[trigger] slot_reg(c, i), f, m) by {
        if i < regs.len() {
            assert(has(s, 1, regs[i as int]));
            assert(run(out, f, m).regs[regs[i as int]] == y(i));
        }
    }
    assert forall|id: u128, slot: usize|
        (see.foreign)(id, slot) == read_by(s, #[trigger] ref_reg(c, id, slot), f, m) by {
        assert(ref_reg(c, id, slot) == ref_reg(frame_ctx(fr), id, slot));
    }
    assert forall|id: u128, kind: PropKind|
        (see.property)(id, kind) == read_by(s, #[trigger] prop_reg(c, id, kind), f, m) by {
        assert(prop_reg(c, id, kind) == prop_reg(frame_ctx(fr), id, kind));
    }
    assert forall|name: Seq<char>|
        (see.local)(name) == (match #[trigger] assoc_get(c.locals, name) {
            Some(r) => Some(held_by(s, r, f, m)),
            None => None,
        }) by {
    }
}

/// Whether every rule is a function of what it sees, and names a slot that is read where it
/// names one.
pub open spec fn sound_rules(u: RulesView, fr: Frame) -> bool {
    &&& u.lets.len() == 0
    &&& 8 * fr.slots <= u32::MAX
    &&& forall|i: int|
        0 <= i < u.rules.len() ==> plain((#[trigger] u.rules[i]).1, rule_names(u, fr)) && (
        rule_slot(u.rules[i].0, fr.sn) matches Some(slot) ==> slot < fr.slots)
}

pub proof fn lemma_resolved_prefix(u: RulesView, fr: Frame, j: nat, n: nat)
    requires
        j <= n <= u.rules.len(),
    ensures
        resolved(u.rules, j, fr.sn).len() <= resolved(u.rules, n, fr.sn).len(),
        forall|i: int|
            0 <= i < resolved(u.rules, j, fr.sn).len() ==> #[trigger] resolved(
                u.rules,
                n,
                fr.sn,
            )[i] == resolved(u.rules, j, fr.sn)[i],
    decreases n,
{
    if j < n {
        lemma_resolved_prefix(u, fr, j, (n - 1) as nat);
    }
}

proof fn lemma_rate_beyond(
    u: RulesView,
    fr: Frame,
    v: Sight,
    f: Functions,
    y: State,
    slot: usize,
    n: nat,
)
    requires
        sound_rules(u, fr),
        slot >= fr.slots,
        n <= u.rules.len(),
    ensures
        rate(u, fr, v, f, y, slot, n) == 0 as real,
    decreases n,
{
    if n > 0 {
        lemma_rate_beyond(u, fr, v, f, y, slot, (n - 1) as nat);
        assert(plain(u.rules[n - 1].1, rule_names(u, fr)));
    }
}

proof fn lemma_derivative_values(
    u: RulesView,
    fr: Frame,
    v: Sight,
    y: State,
    j: nat,
    ctx: CtxView,
    s: Emit,
    f: Functions,
    m: Machine,
)
    requires
        sound_rules(u, fr),
        j <= u.rules.len(),
        names_of(ctx) == rule_names(u, fr),
        tidy(s, 1),
        knows(ctx, s, 1),
        shows(seen_in(v, y), ctx, s, f, m),
        ({
            let found = resolved(u.rules, u.rules.len(), fr.sn);
            let n = resolved(u.rules, j, fr.sn).len();
            1 + derivatives(u, found, n, fr.slots, ctx, s).0.out.len() < u32::MAX
        }),
    ensures
        ({
            let found = resolved(u.rules, u.rules.len(), fr.sn);
            let n = resolved(u.rules, j, fr.sn).len();
            let (t, k) = derivatives(u, found, n, fr.slots, ctx, s);
            &&& tidy(t, 1)
            &&& has_derivatives(t, k)
            &&& after(s, t, 1)
            &&& still(s, t)
            &&& k.len() == fr.slots
            &&& forall|i: int|
                0 <= i < k.len() ==> (match #[trigger] k[i] {
                    Some(r) => held_by(t, r, f, m) == rate(u, fr, v, f, y, i as usize, j),
                    None => rate(u, fr, v, f, y, i as usize, j) == 0 as real,
                })
        }),
    decreases j,
{
    let found = resolved(u.rules, u.rules.len(), fr.sn);
    let n = resolved(u.rules, j, fr.sn).len();
    lemma_resolved_prefix(u, fr, j, u.rules.len());
    lemma_derivatives(u, found, n, fr.slots, ctx, s);
    crate::simultaneity::lemma_derivatives(u, found, n, fr.slots, ctx, s);
    if j > 0 {
        let slot = rule_slot(u.rules[j - 1].0, fr.sn);
        if slot is None {
            lemma_derivative_values(u, fr, v, y, (j - 1) as nat, ctx, s, f, m);
        } else {
            let (s1, k1) = derivatives(u, found, (n - 1) as nat, fr.slots, ctx, s);
            let (t, k) = derivatives(u, found, n, fr.slots, ctx, s);
            let e = u.rules[j - 1].1;
            assert(resolved(u.rules, j, fr.sn)[n - 1] == (slot->0, (j - 1) as nat));
            assert(found[n - 1] == resolved(u.rules, j, fr.sn)[n - 1]);
            lemma_derivatives(u, found, (n - 1) as nat, fr.slots, ctx, s);
            crate::simultaneity::lemma_derivatives(
                u,
                found,
                (n - 1) as nat,
                fr.slots,
                ctx,
                s,
            );
            lemma_knows(ctx, s, s1, 1);
            lemma_expr(e, ctx, s1, 1);
            lemma_derivative_values(u, fr, v, y, (j - 1) as nat, ctx, s, f, m);
            lemma_shows(seen_in(v, y), ctx, s, s1, f, m);
            assert(plain(e, rule_names(u, fr)));
            lemma_value(e, ctx, s1, seen_in(v, y), f, m);
            lemma_registers_stay(s1, t, f, m);
            let (_, r) = lower_expr_spec(e, ctx, s1);
            assert forall|i: int| 0 <= i < k.len() implies (match #[trigger] k[i] {
                Some(q) => held_by(t, q, f, m) == rate(u, fr, v, f, y, i as usize, j),
                None => rate(u, fr, v, f, y, i as usize, j) == 0 as real,
            }) by {
                if i != slot->0 {
                    assert(k[i] == k1[i]);
                    assert(has_some(s1, 1, k1[i]));
                    if let Some(q) = k1[i] {
                        assert(held_by(t, q, f, m) == held_by(s1, q, f, m));
                    }
                }
            }
        }
    } else {
        assert(resolved(u.rules, 0, fr.sn).len() == 0);
    }
}

/// The four stages evaluate the rules in the states that they are given.
proof fn lemma_stage_values(
    u: RulesView,
    fr: Frame,
    v: Sight,
    y: State,
    work: Seq<u32>,
    out: Seq<InstructionView>,
    f: Functions,
    m: Machine,
)
    requires
        sound_rules(u, fr),
        tidy(resumed(out), 1),
        knows_frame(fr, resumed(out)),
        frame_shows(v, fr, out, f, m),
        has_all(resumed(out), 1, work),
        holds_state(out, work, y, f, m),
        1 + stage(u, fr, work, out).0.len() < u32::MAX,
    ensures
        ({
            let (done, k) = stage(u, fr, work, out);
            &&& grown(out, done)
            &&& has_derivatives(resumed(done), k)
            &&& k.len() == fr.slots
            &&& run(done, f, m).world == run(out, f, m).world
            &&& holds_rates(done, k, rates(u, fr, v, f, y), f, m)
        }),
{
    let (done, k) = stage(u, fr, work, out);
    lemma_stage(u, fr, work, out);
    lemma_stage_still(u, fr, work, out);
    lemma_world_stays(out, done, f, m);
    let c = rule_ctx(u, fr, work);
    assert(lower_stmts(u.lets, u.lets.len(), None, c.parts, resumed(out), Seq::empty()).s
        == resumed(out));
    lemma_rule_ctx(u, fr, work, v, y, out, f, m);
    let found = resolved(u.rules, u.rules.len(), fr.sn);
    lemma_derivative_values(u, fr, v, y, u.rules.len(), c, resumed(out), f, m);
    let (t, ks) = derivatives(u, found, found.len(), fr.slots, c, resumed(out));
    assert(t.out == done && ks == k);
    assert forall|i: int| 0 <= i < k.len() implies (match #[trigger] k[i] {
        Some(r) => run(done, f, m).regs[r] == rates(u, fr, v, f, y)(i as usize),
        None => rates(u, fr, v, f, y)(i as usize) == 0 as real,
    }) by {
        assert(match ks[i] {
            Some(r) => held_by(t, r, f, m) == rate(u, fr, v, f, y, i as usize, u.rules.len()),
            None => rate(u, fr, v, f, y, i as usize, u.rules.len()) == 0 as real,
        });
    }
}

proof fn lemma_shifted_grows(
    out: Seq<InstructionView>,
    y: Seq<u32>,
    k: Seq<Option<u32>>,
    shift: Real,
    n: nat,
)
    requires
        0 < n <= y.len(),
    ensures
        shifted(out, y, k, shift, (n - 1) as nat).0.len() + 2 <= shifted(out, y, k, shift, n).0.len()
            <= shifted(out, y, k, shift, (n - 1) as nat).0.len() + 3,
        shifted(out, y, k, shift, n).1.len() == shifted(out, y, k, shift, (n - 1) as nat).1.len()
            + 1,
{
}

proof fn lemma_scaled_value(
    shift: Real,
    r: u32,
    yr: u32,
    out: Seq<InstructionView>,
    f: Functions,
    m: Machine,
)
    requires
        tidy(resumed(out), 1),
        has(resumed(out), 1, r),
        has(resumed(out), 1, yr),
        out.len() + 4 < u32::MAX,
    ensures
        ({
            let (s1, c) = const_of(resumed(out), shift);
            let (s2, d) = op_of(resumed(s1.out), Opcode::Mul, seq![c, r]);
            let (s3, w) = op_of(resumed(s2.out), Opcode::Add, seq![yr, d]);
            &&& run(s3.out, f, m).regs[w] == run(out, f, m).regs[yr] + amount(shift) * run(
                out,
                f,
                m,
            ).regs[r]
            &&& run(s3.out, f, m).world == run(out, f, m).world
        }),
{
    let s0 = resumed(out);
    let (s1, c) = const_of(s0, shift);
    assert(tidy(s1, 1) && has(s1, 1, c) && after(s0, s1, 1) && held_by(s1, c, f, m) == amount(shift)
        && run(s1.out, f, m).world == run(out, f, m).world && s1.out.len() == out.len() + 1) by {
        broadcast use group_follow;

        assert(followed(f, m));
    }
    lemma_registers_stay(s0, s1, f, m);
    assert(held_by(s1, r, f, m) == held_by(s0, r, f, m));
    assert(held_by(s1, yr, f, m) == held_by(s0, yr, f, m));
    lemma_resume(s1);
    let t1 = resumed(s1.out);
    let (s2, d) = op_of(t1, Opcode::Mul, seq![c, r]);
    assert(held_by(t1, c, f, m) == held_by(s1, c, f, m));
    assert(held_by(t1, r, f, m) == held_by(s1, r, f, m));
    assert(held_by(t1, yr, f, m) == held_by(s1, yr, f, m));
    assert(tidy(s2, 1) && has(s2, 1, d) && after(t1, s2, 1) && held_by(s2, d, f, m) == held_by(
        t1,
        c,
        f,
        m,
    ) * held_by(t1, r, f, m) && run(s2.out, f, m).world == run(s1.out, f, m).world
        && s2.out.len() == out.len() + 2) by {
        broadcast use group_follow;

        assert(followed(f, m));
    }
    lemma_registers_stay(t1, s2, f, m);
    assert(held_by(s2, yr, f, m) == held_by(t1, yr, f, m));
    lemma_resume(s2);
    let t2 = resumed(s2.out);
    assert(held_by(t2, yr, f, m) == held_by(s2, yr, f, m));
    assert(held_by(t2, d, f, m) == held_by(s2, d, f, m));
    let (s3, w) = op_of(t2, Opcode::Add, seq![yr, d]);
    assert(held_by(s3, w, f, m) == held_by(t2, yr, f, m) + held_by(t2, d, f, m) && run(
        s3.out,
        f,
        m,
    ).world == run(s2.out, f, m).world) by {
        broadcast use group_follow;

        assert(followed(f, m));
    }
}

proof fn lemma_unscaled_value(yr: u32, out: Seq<InstructionView>, f: Functions, m: Machine)
    requires
        tidy(resumed(out), 1),
        has(resumed(out), 1, yr),
        out.len() + 3 < u32::MAX,
    ensures
        ({
            let (s1, z) = bits_of(resumed(out), ZERO);
            let (s2, w) = op_of(resumed(s1.out), Opcode::Add, seq![yr, z]);
            &&& run(s2.out, f, m).regs[w] == run(out, f, m).regs[yr]
            &&& run(s2.out, f, m).world == run(out, f, m).world
        }),
{
    let s0 = resumed(out);
    let (s1, z) = bits_of(s0, ZERO);
    assert(tidy(s1, 1) && has(s1, 1, z) && after(s0, s1, 1) && held_by(s1, z, f, m) == 0 as real
        && run(s1.out, f, m).world == run(out, f, m).world && s1.out.len() == out.len() + 1) by {
        broadcast use group_follow;

        assert(followed(f, m));
        lemma_numbers();
    }
    lemma_registers_stay(s0, s1, f, m);
    assert(held_by(s1, yr, f, m) == held_by(s0, yr, f, m));
    lemma_resume(s1);
    let t1 = resumed(s1.out);
    assert(held_by(t1, yr, f, m) == held_by(s1, yr, f, m));
    assert(held_by(t1, z, f, m) == held_by(s1, z, f, m));
    let (s2, w) = op_of(t1, Opcode::Add, seq![yr, z]);
    assert(held_by(s2, w, f, m) == held_by(t1, yr, f, m) + held_by(t1, z, f, m) && run(
        s2.out,
        f,
        m,
    ).world == run(s1.out, f, m).world) by {
        broadcast use group_follow;

        assert(followed(f, m));
    }
}

proof fn lemma_shifted_values(
    out: Seq<InstructionView>,
    y: Seq<u32>,
    k: Seq<Option<u32>>,
    shift: Real,
    n: nat,
    state: State,
    along: State,
    f: Functions,
    m: Machine,
)
    requires
        n <= y.len(),
        k.len() == y.len(),
        y.len() <= usize::MAX,
        tidy(resumed(out), 1),
        has_all(resumed(out), 1, y),
        has_derivatives(resumed(out), k),
        holds_state(out, y, state, f, m),
        holds_rates(out, k, along, f, m),
        1 + shifted(out, y, k, shift, n).0.len() < u32::MAX,
    ensures
        ({
            let (done, work) = shifted(out, y, k, shift, n);
            &&& grown(out, done)
            &&& has_all(resumed(done), 1, work)
            &&& work.len() == n
            &&& run(done, f, m).world == run(out, f, m).world
            &&& forall|i: int|
                0 <= i < n ==> run(done, f, m).regs[#[trigger] work[i]] == state(i as usize)
                    + amount(shift) * along(i as usize)
        }),
    decreases n,
{
    lemma_shifted(out, y, k, shift, n);
    lemma_shifted_still(out, y, k, shift, n);
    let (done, work) = shifted(out, y, k, shift, n);
    lemma_world_stays(out, done, f, m);
    if n > 0 {
        lemma_shifted_grows(out, y, k, shift, n);
        lemma_shifted_values(out, y, k, shift, (n - 1) as nat, state, along, f, m);
        lemma_shifted(out, y, k, shift, (n - 1) as nat);
        let (out1, work1) = shifted(out, y, k, shift, (n - 1) as nat);
        let s0 = resumed(out);
        let s1 = resumed(out1);
        lemma_registers_stay(s0, s1, f, m);
        let yr = y[n - 1];
        assert(has(s0, 1, yr));
        assert(held_by(s1, yr, f, m) == held_by(s0, yr, f, m));
        let a = amount(shift);
        let i = (n - 1) as usize;
        assert(has_some(s0, 1, k[n - 1]));
        match k[n - 1] {
            Some(r) => {
                assert(held_by(s1, r, f, m) == held_by(s0, r, f, m));
                assert(run(out, f, m).regs[r] == along(i));
                lemma_scaled_value(shift, r, yr, out1, f, m);
            },
            None => {
                lemma_unscaled_value(yr, out1, f, m);
                let z = along(i);
                assert(a * z == 0 as real) by (nonlinear_arith)
                    requires
                        z == 0 as real,
                ;
            },
        }
        assert(run(done, f, m).regs[work[n - 1]] == state(i) + a * along(i));
        lemma_shift_after(out, y, k, shift, n);
        let t = resumed(done);
        lemma_registers_stay(s1, t, f, m);
        assert forall|q: int| 0 <= q < n implies run(done, f, m).regs[#[trigger] work[q]] == state(
            q as usize,
        ) + a * along(q as usize) by {
            if q < n - 1 {
                assert(work[q] == work1[q]);
                assert(has(s1, 1, work1[q]));
                assert(held_by(t, work1[q], f, m) == held_by(s1, work1[q], f, m));
            }
        }
    }
}

proof fn lemma_shift_after(
    out: Seq<InstructionView>,
    y: Seq<u32>,
    k: Seq<Option<u32>>,
    shift: Real,
    n: nat,
)
    requires
        0 < n <= y.len(),
        tidy(resumed(out), 1),
        has_all(resumed(out), 1, y),
        has_derivatives(resumed(out), k),
    ensures
        after(
            resumed(shifted(out, y, k, shift, (n - 1) as nat).0),
            resumed(shifted(out, y, k, shift, n).0),
            1,
        ),
{
    lemma_shifted(out, y, k, shift, (n - 1) as nat);
    let (out1, work) = shifted(out, y, k, shift, (n - 1) as nat);
    assert(has(resumed(out), 1, y[n - 1]));
    lemma_regs_stay(y, resumed(out), resumed(out1));
    match derivative(k, n - 1) {
        Some(r) => {
            assert(has_some(resumed(out), 1, k[n - 1]));
            lemma_scaled(shift, r, out1);
            let (s, c) = const_of(resumed(out1), shift);
            let (s2, d) = op_of(resumed(s.out), Opcode::Mul, seq![c, r]);
            assert(has(resumed(s2.out), 1, y[n - 1]));
            lemma_pair(Opcode::Add, y[n - 1], d, resumed(s2.out));
            lemma_resume(op_of(resumed(s2.out), Opcode::Add, seq![y[n - 1], d]).0);
        },
        None => {
            let (s, z) = bits_of(resumed(out1), ZERO);
            assert(yields(resumed(out1), (s, z), 1)) by {
                broadcast use group_emitted;

            }
            lemma_resume(s);
            lemma_pair(Opcode::Add, y[n - 1], z, resumed(s.out));
            lemma_resume(op_of(resumed(s.out), Opcode::Add, seq![y[n - 1], z]).0);
        },
    }
}

proof fn lemma_weighted_value(
    u: RulesView,
    y: u32,
    k1: u32,
    k2: u32,
    k3: u32,
    k4: u32,
    flag: Option<u32>,
    s: Emit,
    f: Functions,
    m: Machine,
)
    requires
        tidy(s, 1),
        has(s, 1, y),
        has(s, 1, k1),
        has(s, 1, k2),
        has(s, 1, k3),
        has(s, 1, k4),
        has_some(s, 1, flag),
        s.out.len() + (if flag is Some {
            12int
        } else {
            11int
        }) < u32::MAX,
    ensures
        ({
            let (s1, c2) = bits_of(s, TWO);
            let (s2, two_k2) = op_of(s1, Opcode::Mul, seq![c2, k2]);
            let (s3, c3) = bits_of(s2, TWO);
            let (s4, two_k3) = op_of(s3, Opcode::Mul, seq![c3, k3]);
            let (s5, a) = op_of(s4, Opcode::Add, seq![k1, two_k2]);
            let (s6, b) = op_of(s5, Opcode::Add, seq![two_k3, k4]);
            let (s7, sum) = op_of(s6, Opcode::Add, seq![a, b]);
            let (s8, c6) = const_of(
                s7,
                Real::StepOver { dt: u.dt, substeps: u.substeps as u64, by: 6 },
            );
            let (s9, change) = op_of(s8, Opcode::Mul, seq![c6, sum]);
            let (s10, new) = op_of(s9, Opcode::Add, seq![y, change]);
            let (t, r) = chosen(s10, new, y, flag);
            let at = |q: u32| held_by(s, q, f, m);
            let h = number_of(u.dt) / (u.substeps as u64 as real);
            held_by(t, r, f, m) == (if flag is None || at(flag->0) != 0 as real {
                at(y) + h / (6 as real) * (at(k1) + 2 as real * at(k2) + 2 as real * at(k3) + at(
                    k4,
                ))
            } else {
                at(y)
            })
        }),
{
    broadcast use group_follow;

    assert(followed(f, m));
    lemma_numbers();
    let at = |q: u32| held_by(s, q, f, m);
    let (s1, c2) = bits_of(s, TWO);
    assert(held_by(s1, c2, f, m) == 2 as real);
    let (s2, two_k2) = op_of(s1, Opcode::Mul, seq![c2, k2]);
    assert(held_by(s2, two_k2, f, m) == 2 as real * at(k2));
    let (s3, c3) = bits_of(s2, TWO);
    assert(held_by(s3, c3, f, m) == 2 as real);
    let (s4, two_k3) = op_of(s3, Opcode::Mul, seq![c3, k3]);
    assert(held_by(s4, two_k3, f, m) == 2 as real * at(k3));
    let (s5, a) = op_of(s4, Opcode::Add, seq![k1, two_k2]);
    assert(held_by(s5, a, f, m) == at(k1) + 2 as real * at(k2));
    let (s6, b) = op_of(s5, Opcode::Add, seq![two_k3, k4]);
    assert(held_by(s6, b, f, m) == 2 as real * at(k3) + at(k4));
    let (s7, sum) = op_of(s6, Opcode::Add, seq![a, b]);
    let total = at(k1) + 2 as real * at(k2) + 2 as real * at(k3) + at(k4);
    assert(held_by(s7, sum, f, m) == total);
    let (s8, c6) = const_of(
        s7,
        Real::StepOver { dt: u.dt, substeps: u.substeps as u64, by: 6 },
    );
    let sixth = number_of(u.dt) / (u.substeps as u64 as real) / (6 as real);
    assert(held_by(s8, c6, f, m) == sixth);
    let (s9, change) = op_of(s8, Opcode::Mul, seq![c6, sum]);
    assert(held_by(s9, change, f, m) == sixth * total);
    let (s10, new) = op_of(s9, Opcode::Add, seq![y, change]);
    assert(held_by(s10, new, f, m) == at(y) + sixth * total);
    assert(held_by(s10, y, f, m) == at(y));
    if let Some(g) = flag {
        assert(held_by(s10, g, f, m) == at(g));
    }
}

/// The rate of a slot that a stage found.
proof fn lemma_weight_value(
    ks: Seq<Seq<Option<u32>>>,
    j: int,
    slot: usize,
    rates: State,
    out: Seq<InstructionView>,
    t: Emit,
    f: Functions,
    m: Machine,
)
    requires
        tidy(resumed(out), 1),
        tidy(t, 1),
        after(resumed(out), t, 1),
        has_stages(resumed(out), ks),
        0 <= j < 4,
        slot < ks[j].len(),
        holds_rates(out, ks[j], rates, f, m),
        1 + t.out.len() < u32::MAX,
    ensures
        ({
            let (d, r) = known_of(t, weights(ks, j, slot));
            &&& yields(t, (d, r), 1)
            &&& held_by(d, r, f, m) == rates(slot)
            &&& d.out.len() <= t.out.len() + 1
        }),
{
    lemma_weight(ks, j, slot, resumed(out), t);
    let s = resumed(out);
    assert(has_some(s, 1, ks[j][slot as int]));
    lemma_registers_stay(s, t, f, m);
    let r = weights(ks, j, slot);
    if let Some(q) = ks[j][slot as int] {
        assert(held_by(t, q, f, m) == held_by(s, q, f, m));
    }
    lemma_known_value(t, r, f, m);
}

/// The new value of a slot by the weighted mean of four rates.
pub open spec fn weighted(u: RulesView, y: real, k1: real, k2: real, k3: real, k4: real) -> real {
    let h = number_of(u.dt) / (u.substeps as u64 as real);
    y + h / (6 as real) * (k1 + 2 as real * k2 + 2 as real * k3 + k4)
}

/// Whether a flag, where there is one, is set.
pub open spec fn flag_set(
    out: Seq<InstructionView>,
    flag: Option<u32>,
    f: Functions,
    m: Machine,
) -> bool {
    flag matches Some(g) ==> run(out, f, m).regs[g] != 0 as real
}

#[verifier::rlimit(60)]
proof fn lemma_combined_value(
    u: RulesView,
    slot: usize,
    y: u32,
    ks: Seq<Seq<Option<u32>>>,
    r: (State, State, State, State),
    flag: Option<u32>,
    out: Seq<InstructionView>,
    f: Functions,
    m: Machine,
)
    requires
        tidy(resumed(out), 1),
        has(resumed(out), 1, y),
        y != 0,
        has_stages(resumed(out), ks),
        has_some(resumed(out), 1, flag),
        slot < ks[0].len(),
        slot < ks[1].len(),
        slot < ks[2].len(),
        slot < ks[3].len(),
        holds_rates(out, ks[0], r.0, f, m),
        holds_rates(out, ks[1], r.1, f, m),
        holds_rates(out, ks[2], r.2, f, m),
        holds_rates(out, ks[3], r.3, f, m),
        1 + combined(u, slot, y, ks, flag, resumed(out)).0.out.len() < u32::MAX,
    ensures
        ({
            let (t, q) = combined(u, slot, y, ks, flag, resumed(out));
            let old = run(out, f, m).regs[y];
            &&& yields(resumed(out), (t, q), 1)
            &&& held_by(t, q, f, m) == (if flag_set(out, flag, f, m) {
                weighted(u, old, (r.0)(slot), (r.1)(slot), (r.2)(slot), (r.3)(slot))
            } else {
                old
            })
        }),
{
    let s = resumed(out);
    lemma_combined(u, slot, y, ks, flag, s);
    let (sa, k1) = known_of(s, weights(ks, 0, slot));
    let (sb, k2) = known_of(sa, weights(ks, 1, slot));
    let (sc, k3) = known_of(sb, weights(ks, 2, slot));
    let (sd, k4) = known_of(sc, weights(ks, 3, slot));
    lemma_combined_len(u, slot, y, ks, flag, s);
    lemma_weight_value(ks, 0, slot, r.0, out, s, f, m);
    lemma_weight_value(ks, 1, slot, r.1, out, sa, f, m);
    lemma_weight_value(ks, 2, slot, r.2, out, sb, f, m);
    lemma_weight_value(ks, 3, slot, r.3, out, sc, f, m);
    lemma_registers_stay(s, sd, f, m);
    lemma_registers_stay(sa, sd, f, m);
    lemma_registers_stay(sb, sd, f, m);
    lemma_registers_stay(sc, sd, f, m);
    assert(held_by(sd, y, f, m) == held_by(s, y, f, m));
    assert(held_by(sd, k1, f, m) == held_by(sa, k1, f, m));
    assert(held_by(sd, k2, f, m) == held_by(sb, k2, f, m));
    assert(held_by(sd, k3, f, m) == held_by(sc, k3, f, m));
    if let Some(g) = flag {
        assert(held_by(sd, g, f, m) == held_by(s, g, f, m));
    }
    lemma_weighted_value(u, y, k1, k2, k3, k4, flag, sd, f, m);
}

proof fn lemma_combined_len(
    u: RulesView,
    slot: usize,
    y: u32,
    ks: Seq<Seq<Option<u32>>>,
    flag: Option<u32>,
    s: Emit,
)
    requires
        y != 0,
    ensures
        ({
            let (sa, k1) = known_of(s, weights(ks, 0, slot));
            let (sb, k2) = known_of(sa, weights(ks, 1, slot));
            let (sc, k3) = known_of(sb, weights(ks, 2, slot));
            let (sd, k4) = known_of(sc, weights(ks, 3, slot));
            &&& s.out.len() <= sa.out.len() <= sb.out.len() <= sc.out.len() <= sd.out.len()
            &&& combined(u, slot, y, ks, flag, s).0.out.len() == sd.out.len() + if flag is Some {
                11int
            } else {
                10int
            }
        }),
{
}

/// Whether one of the first rules names a slot.
pub open spec fn ruled(u: RulesView, fr: Frame, j: nat, slot: int) -> bool {
    exists|i: int|
        0 <= i < j && i < u.rules.len() && (rule_slot(
            (#[trigger] u.rules[i]).0,
            fr.sn,
        ) matches Some(x) && x == slot)
}

pub proof fn lemma_ruled_step(u: RulesView, fr: Frame, j: nat, slot: int)
    requires
        0 < j <= u.rules.len(),
    ensures
        ruled(u, fr, j, slot) == (ruled(u, fr, (j - 1) as nat, slot) || (rule_slot(
            u.rules[j - 1].0,
            fr.sn,
        ) matches Some(x) && x == slot)),
{
    if ruled(u, fr, j, slot) {
        let i = choose|i: int|
            0 <= i < j && i < u.rules.len() && (rule_slot(
                (#[trigger] u.rules[i]).0,
                fr.sn,
            ) matches Some(x) && x == slot);
        if i < j - 1 {
            assert(ruled(u, fr, (j - 1) as nat, slot));
        }
    }
    if rule_slot(u.rules[j - 1].0, fr.sn) matches Some(x) && x == slot {
        assert(ruled(u, fr, j, slot));
    }
    if ruled(u, fr, (j - 1) as nat, slot) {
        let i = choose|i: int|
            0 <= i < j - 1 && i < u.rules.len() && (rule_slot(
                (#[trigger] u.rules[i]).0,
                fr.sn,
            ) matches Some(x) && x == slot);
        assert(ruled(u, fr, j, slot));
    }
}

/// A world in which the slots that some of the first rules name hold new values, and all
/// else is as before.
pub open spec fn advanced(
    before: Map<ComponentRefView, real>,
    after: Map<ComponentRefView, real>,
    u: RulesView,
    fr: Frame,
    j: nat,
    new: State,
) -> bool {
    &&& forall|slot: int|
        0 <= slot < fr.slots ==> #[trigger] after[slot_of(fr.entity, slot)] == (if ruled(
            u,
            fr,
            j,
            slot,
        ) {
            new(slot as usize)
        } else {
            before[slot_of(fr.entity, slot)]
        })
    &&& forall|at: ComponentRefView|
        (forall|slot: int| 0 <= slot < fr.slots ==> at != #[trigger] slot_of(fr.entity, slot))
            ==> #[trigger] after[at] == before[at]
}

pub proof fn lemma_one_written(
    before: Map<ComponentRefView, real>,
    mid: Map<ComponentRefView, real>,
    u: RulesView,
    fr: Frame,
    j: nat,
    new: State,
    slot: usize,
)
    requires
        0 < j <= u.rules.len(),
        8 * fr.slots <= u32::MAX,
        slot < fr.slots,
        rule_slot(u.rules[j - 1].0, fr.sn) == Some(slot),
        advanced(before, mid, u, fr, (j - 1) as nat, new),
    ensures
        advanced(
            before,
            mid.insert(slot_of(fr.entity, slot as int), new(slot)),
            u,
            fr,
            j,
            new,
        ),
{
    let after = mid.insert(slot_of(fr.entity, slot as int), new(slot));
    assert forall|x: int| 0 <= x < fr.slots implies #[trigger] after[slot_of(fr.entity, x)] == (
    if ruled(u, fr, j, x) {
        new(x as usize)
    } else {
        before[slot_of(fr.entity, x)]
    }) by {
        lemma_ruled_step(u, fr, j, x);
        assert(slot_of(fr.entity, x).offset == 8 * x);
        assert(slot_of(fr.entity, slot as int).offset == 8 * slot);
        assert(mid[slot_of(fr.entity, x)] == (if ruled(u, fr, (j - 1) as nat, x) {
            new(x as usize)
        } else {
            before[slot_of(fr.entity, x)]
        }));
    }
    assert forall|at: ComponentRefView|
        (forall|x: int| 0 <= x < fr.slots ==> at != #[trigger] slot_of(
            fr.entity,
            x,
        )) implies #[trigger] after[at] == before[at] by {
        assert(at != slot_of(fr.entity, slot as int));
        assert(mid[at] == before[at]);
    }
}

#[verifier::rlimit(60)]
proof fn lemma_writes_values(
    u: RulesView,
    fr: Frame,
    j: nat,
    y: Seq<u32>,
    ks: Seq<Seq<Option<u32>>>,
    r: (State, State, State, State),
    flag: Option<u32>,
    out: Seq<InstructionView>,
    old: State,
    f: Functions,
    m: Machine,
)
    requires
        sound_rules(u, fr),
        j <= u.rules.len(),
        y.len() == fr.slots,
        tidy(resumed(out), 1),
        has_all(resumed(out), 1, y),
        has_stages(resumed(out), ks),
        has_some(resumed(out), 1, flag),
        ks[0].len() == fr.slots,
        ks[1].len() == fr.slots,
        ks[2].len() == fr.slots,
        ks[3].len() == fr.slots,
        holds_state(out, y, old, f, m),
        holds_rates(out, ks[0], r.0, f, m),
        holds_rates(out, ks[1], r.1, f, m),
        holds_rates(out, ks[2], r.2, f, m),
        holds_rates(out, ks[3], r.3, f, m),
        1 + combined_writes(
            u,
            fr,
            resolved(u.rules, j, fr.sn).len(),
            y,
            ks,
            flag,
            out,
        ).len() < u32::MAX,
    ensures
        ({
            let done = combined_writes(
                u,
                fr,
                resolved(u.rules, j, fr.sn).len(),
                y,
                ks,
                flag,
                out,
            );
            let set = flag_set(out, flag, f, m);
            &&& grown(out, done)
            &&& advanced(
                run(out, f, m).world,
                run(done, f, m).world,
                u,
                fr,
                j,
                |slot: usize|
                    if set {
                        weighted(u, old(slot), (r.0)(slot), (r.1)(slot), (r.2)(slot), (r.3)(slot))
                    } else {
                        old(slot)
                    },
            )
        }),
    decreases j,
{
    let found = resolved(u.rules, u.rules.len(), fr.sn);
    let n = resolved(u.rules, j, fr.sn).len();
    let set = flag_set(out, flag, f, m);
    let new = |slot: usize|
        if set {
            weighted(u, old(slot), (r.0)(slot), (r.1)(slot), (r.2)(slot), (r.3)(slot))
        } else {
            old(slot)
        };
    let w = run(out, f, m).world;
    lemma_resolved_prefix(u, fr, j, u.rules.len());
    lemma_combined_writes(u, fr, n, y, ks, flag, out);
    let done = combined_writes(u, fr, n, y, ks, flag, out);
    if j == 0 {
        assert(n == 0);
        assert forall|slot: int| 0 <= slot < fr.slots implies !ruled(u, fr, 0, slot) by {
        }
    } else {
        let named = rule_slot(u.rules[j - 1].0, fr.sn);
        assert(plain(u.rules[j - 1].1, rule_names(u, fr)));
        if named is None {
            lemma_writes_values(u, fr, (j - 1) as nat, y, ks, r, flag, out, old, f, m);
            assert forall|slot: int| 0 <= slot < fr.slots implies ruled(u, fr, j, slot) == ruled(
                u,
                fr,
                (j - 1) as nat,
                slot,
            ) by {
                lemma_ruled_step(u, fr, j, slot);
            }
        } else {
            let slot = named->0;
            assert(resolved(u.rules, j, fr.sn)[n - 1] == (slot, (j - 1) as nat));
            assert(found[n - 1] == resolved(u.rules, j, fr.sn)[n - 1]);
            let out1 = combined_writes(u, fr, (n - 1) as nat, y, ks, flag, out);
            lemma_combined_writes(u, fr, (n - 1) as nat, y, ks, flag, out);
            let s0 = resumed(out);
            let s1 = resumed(out1);
            lemma_regs_stay(y, s0, s1);
            lemma_derivatives_stay(ks[0], s0, s1);
            lemma_derivatives_stay(ks[1], s0, s1);
            lemma_derivatives_stay(ks[2], s0, s1);
            lemma_derivatives_stay(ks[3], s0, s1);
            assert(has(s1, 1, y[slot as int]));
            lemma_combined(u, slot, y[slot as int], ks, flag, s1);
            let (t, q) = combined(u, slot, y[slot as int], ks, flag, s1);
            assert(done.len() == t.out.len() + 1);
            assert(out1.len() <= t.out.len());
            lemma_writes_values(u, fr, (j - 1) as nat, y, ks, r, flag, out, old, f, m);
            lemma_registers_stay(s0, s1, f, m);
            lemma_rates_stay(ks[0], r.0, out, out1, f, m);
            lemma_rates_stay(ks[1], r.1, out, out1, f, m);
            lemma_rates_stay(ks[2], r.2, out, out1, f, m);
            lemma_rates_stay(ks[3], r.3, out, out1, f, m);
            if let Some(g) = flag {
                assert(held_by(s1, g, f, m) == held_by(s0, g, f, m));
            }
            assert(has(s0, 1, y[slot as int]));
            assert(held_by(s1, y[slot as int], f, m) == held_by(s0, y[slot as int], f, m));
            lemma_combined_value(u, slot, y[slot as int], ks, r, flag, out1, f, m);
            lemma_combined_still(u, slot, y[slot as int], ks, flag, s1);
            crate::sensing::lemma_adds_more(out1, t.out, true, false);
            lemma_world_stays(out1, t.out, f, m);
            lemma_run_push(
                t.out,
                crate::emit::effect_view(
                    Opcode::WriteView,
                    seq![q],
                    Some(crate::emit::at(fr.entity, ComponentView::State, slot_offset(slot))),
                ),
                f,
                m,
            );
            lemma_offset(slot, fr.slots);
            assert(run(out, f, m).regs[y[slot as int]] == old(slot));
            assert(held_by(t, q, f, m) == new(slot));
            assert(run(done, f, m).world == run(out1, f, m).world.insert(
                slot_of(fr.entity, slot as int),
                new(slot),
            ));
            lemma_one_written(w, run(out1, f, m).world, u, fr, j, new, slot);
        }
    }
}

proof fn lemma_rates_stay(
    k: Seq<Option<u32>>,
    rates: State,
    a: Seq<InstructionView>,
    b: Seq<InstructionView>,
    f: Functions,
    m: Machine,
)
    requires
        holds_rates(a, k, rates, f, m),
        has_derivatives(resumed(a), k),
        tidy(resumed(a), 1),
        grown(a, b),
        small(resumed(b), 1),
    ensures
        holds_rates(b, k, rates, f, m),
        has_derivatives(resumed(b), k),
{
    lemma_registers_stay(resumed(a), resumed(b), f, m);
    lemma_derivatives_stay(k, resumed(a), resumed(b));
    assert forall|i: int| 0 <= i < k.len() implies (match #[trigger] k[i] {
        Some(r) => run(b, f, m).regs[r] == rates(i as usize),
        None => rates(i as usize) == 0 as real,
    }) by {
        assert(has_some(resumed(a), 1, k[i]));
        if let Some(r) = k[i] {
            assert(held_by(resumed(b), r, f, m) == held_by(resumed(a), r, f, m));
        }
    }
}

proof fn lemma_state_stays(
    regs: Seq<u32>,
    y: State,
    a: Seq<InstructionView>,
    b: Seq<InstructionView>,
    f: Functions,
    m: Machine,
)
    requires
        holds_state(a, regs, y, f, m),
        has_all(resumed(a), 1, regs),
        tidy(resumed(a), 1),
        grown(a, b),
        small(resumed(b), 1),
    ensures
        holds_state(b, regs, y, f, m),
        has_all(resumed(b), 1, regs),
{
    lemma_registers_stay(resumed(a), resumed(b), f, m);
    lemma_regs_stay(regs, resumed(a), resumed(b));
    assert forall|i: int| 0 <= i < regs.len() implies run(b, f, m).regs[#[trigger] regs[i]] == y(
        i as usize,
    ) by {
        assert(has(resumed(a), 1, regs[i]));
        assert(held_by(resumed(b), regs[i], f, m) == held_by(resumed(a), regs[i], f, m));
    }
}

/// Whether the condition of a system holds in a state; one without a condition always
/// applies.
pub open spec fn applies_in(
    u: RulesView,
    fr: Frame,
    v: Sight,
    f: Functions,
    y: State,
) -> bool {
    match u.when {
        None => true,
        Some(w) => value(w, rule_names(u, fr), seen_in(v, y), f) != 0 as real,
    }
}

proof fn lemma_rk4_flag_value(
    u: RulesView,
    fr: Frame,
    v: Sight,
    out: Seq<InstructionView>,
    f: Functions,
    m: Machine,
)
    requires
        sound_rules(u, fr),
        u.when matches Some(w) ==> plain(w, rule_names(u, fr)),
        past(span_cond(u.when, fr.sn)) <= fr.slots,
        tidy(resumed(out), 1),
        knows_frame(fr, resumed(out)),
        frame_shows(v, fr, out, f, m),
        1 + rk4_flag(u, fr, out).0.len() < u32::MAX,
    ensures
        ({
            let (done, flag) = rk4_flag(u, fr, out);
            let y = slots_in(run(out, f, m).world, fr.entity, fr.slots);
            &&& grown(out, done)
            &&& has_some(resumed(done), 1, flag)
            &&& run(done, f, m).world == run(out, f, m).world
            &&& flag_set(done, flag, f, m) == applies_in(u, fr, v, f, y)
        }),
{
    let (done, flag) = rk4_flag(u, fr, out);
    lemma_rk4_flag(u, fr, out);
    lemma_rk4_flag_still(u, fr, out);
    lemma_world_stays(out, done, f, m);
    if let Some(w) = u.when {
        let slots = past(span_cond(u.when, fr.sn));
        let (out1, regs) = slot_reads(out, fr.entity, slots as nat);
        let c = rule_ctx(u, fr, regs);
        lemma_slots(out, fr.entity, slots as nat);
        lemma_frame_stays(fr, resumed(out), resumed(out1));
        assert(knows(c, resumed(out1), 1));
        lemma_expr(w, c, resumed(out1), 1);
        let (s, r) = lower_expr_spec(w, c, resumed(out1));
        lemma_truthy(s, r, 1);
        let (t, q) = truthy_of(s, r);
        assert(t.out.len() == s.out.len() + 5);
        lemma_slots_read(out, fr.entity, slots as nat, fr.slots, f, m);
        lemma_frame_shows(v, fr, out, out1, f, m);
        let wd = run(out, f, m).world;
        let near = slots_in(wd, fr.entity, slots);
        let y = slots_in(wd, fr.entity, fr.slots);
        assert(holds_state(out1, regs, near, f, m));
        lemma_rule_ctx(u, fr, regs, v, near, out1, f, m);
        lemma_value(w, c, resumed(out1), seen_in(v, near), f, m);
        crate::evaluation::lemma_truthy_value(s, r, f, m);
        law_value_depends_on_its_span(
            w,
            rule_names(u, fr),
            seen_in(v, near),
            seen_in(v, y),
            f,
            slots as int,
        );
        assert(t.out == done);
    }
}

/// The four states in which an `rk4` system evaluates its rules, and the state that it
/// comes to: the classic fourth-order Runge-Kutta step.
pub open spec fn runge_kutta(u: RulesView, fr: Frame, v: Sight, f: Functions, y: State) -> State {
    let h = number_of(u.dt) / (u.substeps as u64 as real);
    let half = h / (2 as real);
    let k1 = rates(u, fr, v, f, y);
    let k2 = rates(u, fr, v, f, moved(y, half, k1));
    let k3 = rates(u, fr, v, f, moved(y, half, k2));
    let k4 = rates(u, fr, v, f, moved(y, h, k3));
    |slot: usize|
        y(slot) + h / (6 as real) * (k1(slot) + 2 as real * k2(slot) + 2 as real * k3(slot) + k4(
            slot,
        ))
}

proof fn lemma_moved(
    u: RulesView,
    fr: Frame,
    v: Sight,
    y: State,
    from: State,
    by: real,
    out: Seq<InstructionView>,
    work: Seq<u32>,
    f: Functions,
    m: Machine,
)
    requires
        sound_rules(u, fr),
        work.len() == fr.slots,
        forall|i: usize| i >= fr.slots ==> #[trigger] y(i) == 0 as real,
        forall|i: int|
            0 <= i < work.len() ==> run(out, f, m).regs[#[trigger] work[i]] == y(i as usize) + by
                * rates(u, fr, v, f, from)(i as usize),
    ensures
        holds_state(out, work, moved(y, by, rates(u, fr, v, f, from)), f, m),
{
    let k = rates(u, fr, v, f, from);
    assert forall|i: usize| i >= work.len() implies #[trigger] moved(y, by, k)(i) == 0 as real by {
        lemma_rate_beyond(u, fr, v, f, from, i, u.rules.len());
        let z = k(i);
        assert(by * z == 0 as real) by (nonlinear_arith)
            requires
                z == 0 as real,
        ;
        assert(y(i) == 0 as real);
    }
}

proof fn lemma_substep_lengths(u: RulesView, fr: Frame, out: Seq<InstructionView>)
    requires
        tidy(resumed(out), 1),
        knows_frame(fr, resumed(out)),
    ensures
        ({
            let half = Real::StepOver { dt: u.dt, substeps: u.substeps as u64, by: 2 };
            let full = Real::Step { dt: u.dt, substeps: u.substeps as u64 };
            let (o0, y) = slot_reads(out, fr.entity, fr.slots as nat);
            let (o1, k1) = stage(u, fr, y, o0);
            let (o2, w2) = shifted(o1, y, k1, half, y.len());
            let (o3, k2) = stage(u, fr, w2, o2);
            let (o4, w3) = shifted(o3, y, k2, half, y.len());
            let (o5, k3) = stage(u, fr, w3, o4);
            let (o6, w4) = shifted(o5, y, k3, full, y.len());
            let (o7, k4) = stage(u, fr, w4, o6);
            let (o8, flag) = rk4_flag(u, fr, o7);
            out.len() <= o0.len() <= o1.len() <= o2.len() <= o3.len() <= o4.len() <= o5.len()
                <= o6.len() <= o7.len() <= o8.len() <= rk4_substep(u, fr, out).len()
        }),
{
    let half = Real::StepOver { dt: u.dt, substeps: u.substeps as u64, by: 2 };
    let full = Real::Step { dt: u.dt, substeps: u.substeps as u64 };
    let (o0, y) = slot_reads(out, fr.entity, fr.slots as nat);
    let (o1, k1) = stage(u, fr, y, o0);
    let (o2, w2) = shifted(o1, y, k1, half, y.len());
    let (o3, k2) = stage(u, fr, w2, o2);
    let (o4, w3) = shifted(o3, y, k2, half, y.len());
    let (o5, k3) = stage(u, fr, w3, o4);
    let (o6, w4) = shifted(o5, y, k3, full, y.len());
    let (o7, k4) = stage(u, fr, w4, o6);
    let (o8, flag) = rk4_flag(u, fr, o7);
    let found = resolved(u.rules, u.rules.len(), fr.sn);
    lemma_slot_reads_still(out, fr.entity, fr.slots as nat);
    lemma_stage_still(u, fr, y, o0);
    lemma_shifted_still(o1, y, k1, half, y.len());
    lemma_stage_still(u, fr, w2, o2);
    lemma_shifted_still(o3, y, k2, half, y.len());
    lemma_stage_still(u, fr, w3, o4);
    lemma_shifted_still(o5, y, k3, full, y.len());
    lemma_stage_still(u, fr, w4, o6);
    lemma_rk4_flag_still(u, fr, o7);
    crate::simultaneity::lemma_combined_writes(
        u,
        fr,
        found.len(),
        y,
        seq![k1, k2, k3, k4],
        flag,
        o8,
    );
    reveal(crate::sensing::adds);
}

/// One substep of an `rk4` system: every slot with a rule goes from its own old value to
/// that of the classic fourth-order Runge-Kutta step over the rules, where the condition
/// holds. A slot without a rule, or without the condition, keeps its value, and nothing
/// else changes.
#[verifier::rlimit(80)]
pub proof fn law_rk4_substep(
    u: RulesView,
    fr: Frame,
    v: Sight,
    out: Seq<InstructionView>,
    f: Functions,
    m: Machine,
)
    requires
        sound_rules(u, fr),
        u.when matches Some(w) ==> plain(w, rule_names(u, fr)),
        past(span_cond(u.when, fr.sn)) <= fr.slots,
        tidy(resumed(out), 1),
        knows_frame(fr, resumed(out)),
        frame_shows(v, fr, out, f, m),
        1 + rk4_substep(u, fr, out).len() < u32::MAX,
    ensures
        ({
            let before = run(out, f, m).world;
            let after = run(rk4_substep(u, fr, out), f, m).world;
            let y = slots_in(before, fr.entity, fr.slots);
            &&& forall|slot: int|
                0 <= slot < fr.slots ==> #[trigger] after[slot_of(fr.entity, slot)] == (if has_rule(
                    u,
                    fr,
                    slot as usize,
                ) && applies_in(u, fr, v, f, y) {
                    runge_kutta(u, fr, v, f, y)(slot as usize)
                } else {
                    before[slot_of(fr.entity, slot)]
                })
            &&& forall|at: ComponentRefView|
                (forall|slot: int|
                    0 <= slot < fr.slots ==> at != #[trigger] slot_of(fr.entity, slot))
                    ==> #[trigger] after[at] == before[at]
        }),
{
    let half = Real::StepOver { dt: u.dt, substeps: u.substeps as u64, by: 2 };
    let full = Real::Step { dt: u.dt, substeps: u.substeps as u64 };
    let h = number_of(u.dt) / (u.substeps as u64 as real);
    lemma_substep_lengths(u, fr, out);
    let (o0, y) = slot_reads(out, fr.entity, fr.slots as nat);
    let (o1, k1) = stage(u, fr, y, o0);
    let (o2, w2) = shifted(o1, y, k1, half, y.len());
    let (o3, k2) = stage(u, fr, w2, o2);
    let (o4, w3) = shifted(o3, y, k2, half, y.len());
    let (o5, k3) = stage(u, fr, w3, o4);
    let (o6, w4) = shifted(o5, y, k3, full, y.len());
    let (o7, k4) = stage(u, fr, w4, o6);
    let (o8, flag) = rk4_flag(u, fr, o7);
    let before = run(out, f, m).world;
    let y0 = slots_in(before, fr.entity, fr.slots);
    let r1 = rates(u, fr, v, f, y0);
    let y1 = moved(y0, h / (2 as real), r1);
    let r2 = rates(u, fr, v, f, y1);
    let y2 = moved(y0, h / (2 as real), r2);
    let r3 = rates(u, fr, v, f, y2);
    let y3 = moved(y0, h, r3);
    let r4 = rates(u, fr, v, f, y3);
    assert(amount(half) == h / (2 as real));
    assert(amount(full) == h);
    lemma_slots_read(out, fr.entity, fr.slots as nat, fr.slots, f, m);
    assert(holds_state(o0, y, y0, f, m));
    lemma_frame_shows(v, fr, out, o0, f, m);
    lemma_stage_values(u, fr, v, y0, y, o0, f, m);
    lemma_frame_shows(v, fr, o0, o1, f, m);
    lemma_state_stays(y, y0, o0, o1, f, m);
    lemma_shifted_values(o1, y, k1, half, y.len(), y0, r1, f, m);
    lemma_moved(u, fr, v, y0, y0, h / (2 as real), o2, w2, f, m);
    lemma_frame_shows(v, fr, o1, o2, f, m);
    lemma_stage_values(u, fr, v, y1, w2, o2, f, m);
    lemma_frame_shows(v, fr, o2, o3, f, m);
    lemma_state_stays(y, y0, o1, o2, f, m);
    lemma_state_stays(y, y0, o2, o3, f, m);
    lemma_rates_stay(k1, r1, o1, o2, f, m);
    lemma_rates_stay(k1, r1, o2, o3, f, m);
    lemma_shifted_values(o3, y, k2, half, y.len(), y0, r2, f, m);
    lemma_moved(u, fr, v, y0, y1, h / (2 as real), o4, w3, f, m);
    lemma_frame_shows(v, fr, o3, o4, f, m);
    lemma_stage_values(u, fr, v, y2, w3, o4, f, m);
    lemma_frame_shows(v, fr, o4, o5, f, m);
    lemma_state_stays(y, y0, o3, o4, f, m);
    lemma_state_stays(y, y0, o4, o5, f, m);
    lemma_rates_stay(k1, r1, o3, o4, f, m);
    lemma_rates_stay(k1, r1, o4, o5, f, m);
    lemma_rates_stay(k2, r2, o3, o4, f, m);
    lemma_rates_stay(k2, r2, o4, o5, f, m);
    lemma_shifted_values(o5, y, k3, full, y.len(), y0, r3, f, m);
    lemma_moved(u, fr, v, y0, y2, h, o6, w4, f, m);
    lemma_frame_shows(v, fr, o5, o6, f, m);
    lemma_stage_values(u, fr, v, y3, w4, o6, f, m);
    lemma_frame_shows(v, fr, o6, o7, f, m);
    lemma_state_stays(y, y0, o5, o6, f, m);
    lemma_state_stays(y, y0, o6, o7, f, m);
    lemma_rates_stay(k1, r1, o5, o6, f, m);
    lemma_rates_stay(k1, r1, o6, o7, f, m);
    lemma_rates_stay(k2, r2, o5, o6, f, m);
    lemma_rates_stay(k2, r2, o6, o7, f, m);
    lemma_rates_stay(k3, r3, o5, o6, f, m);
    lemma_rates_stay(k3, r3, o6, o7, f, m);
    lemma_rk4_flag_value(u, fr, v, o7, f, m);
    lemma_state_stays(y, y0, o7, o8, f, m);
    lemma_rates_stay(k1, r1, o7, o8, f, m);
    lemma_rates_stay(k2, r2, o7, o8, f, m);
    lemma_rates_stay(k3, r3, o7, o8, f, m);
    lemma_rates_stay(k4, r4, o7, o8, f, m);
    let ks = seq![k1, k2, k3, k4];
    lemma_writes_values(u, fr, u.rules.len(), y, ks, (r1, r2, r3, r4), flag, o8, y0, f, m);
    let after = run(rk4_substep(u, fr, out), f, m).world;
    assert forall|slot: int| 0 <= slot < fr.slots implies #[trigger] after[slot_of(
        fr.entity,
        slot,
    )] == (if has_rule(u, fr, slot as usize) && applies_in(u, fr, v, f, y0) {
        runge_kutta(u, fr, v, f, y0)(slot as usize)
    } else {
        before[slot_of(fr.entity, slot)]
    }) by {
        lemma_ruled_is_has_rule(u, fr, slot as usize);
    }
}

pub proof fn lemma_ruled_is_has_rule(u: RulesView, fr: Frame, slot: usize)
    ensures
        ruled(u, fr, u.rules.len(), slot as int) == has_rule(u, fr, slot),
{
    if ruled(u, fr, u.rules.len(), slot as int) {
        let i = choose|i: int|
            0 <= i < u.rules.len() && i < u.rules.len() && (rule_slot(
                (#[trigger] u.rules[i]).0,
                fr.sn,
            ) matches Some(x) && x == slot as int);
        assert(rule_slot(u.rules[i].0, fr.sn) == Some(slot));
    }
}

} // verus!
