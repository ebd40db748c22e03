//! What the functions of rule systems do over all their substeps, in exact arithmetic.

use crate::eir::{ComponentRefView, ComponentView, InstructionView};
use crate::emit::resumed;
use crate::evaluation::{below, alike_below, law_value_depends_on_its_span, plain, read_by, Sight};
use crate::expr::PropKind;
use crate::functions::{
    grown, knows_frame, lemma_frame_stays, lemma_keys, lemma_keys_stay, lemma_rk4_substeps,
    lemma_update_substep, lemma_rk4_substep, lemma_update_substeps,
};
use crate::integration::{
    applies_in, frame_ctx, frame_shows, has_rule, law_rk4_substep, moved, rate, rates, rule_names,
    runge_kutta, seen_in, slots_in, sound_rules, State,
};
use crate::meaning::{
    held_by, lemma_registers_stay, lemma_run_push, number_of, run, Functions, Machine,
};
use crate::motion::{follows, slot_of, Fields};
use crate::numbering::{after, group_code, has_some, small, tidy};
use crate::observing::{lemma_keys_read, placed, seen};
use crate::refs::span;
use crate::rk4::{rk4_slots, rk4_substeps, Rk4System};
use crate::rules::{applies, key_reads, EirSystem};
use crate::scope::{layout_of, prop_reg, ref_reg, reg_get, Layout};
use crate::stepping::{law_update_substep, substep};
use crate::update::{
    past, rule_refs, rule_slot, span_cond, span_lhs, span_rhs, update_slots, update_substeps, Frame,
    RulesView, UpdateSystem,
};
use vstd::prelude::*;

verus! {

broadcast use group_code;

/// A frame that holds no registers.
pub open spec fn frame_of(u: RulesView, entity: u128, slots: usize) -> Frame {
    Frame {
        entity,
        sn: layout_of(u.scope.state_names_by_id, entity),
        slots,
        ref_regs: Seq::empty(),
        prop_regs: Seq::empty(),
    }
}

/// The state of an entity.
pub open spec fn state_in(w: Fields, entity: u128) -> State {
    |slot: usize| w[slot_of(entity, slot as int)]
}

/// The state after one substep: a slot with a rule takes the classic fourth-order
/// Runge-Kutta step, or else moves along its rate, where the condition holds.
pub open spec fn stepped(
    u: RulesView,
    fr: Frame,
    v: Sight,
    f: Functions,
    y: State,
    fourth: bool,
) -> State {
    |slot: usize|
        if !has_rule(u, fr, slot) || !applies_in(u, fr, v, f, y) {
            y(slot)
        } else if fourth {
            runge_kutta(u, fr, v, f, y)(slot)
        } else {
            y(slot) + rates(u, fr, v, f, y)(slot) * substep(u)
        }
}

/// The state after a number of substeps.
pub open spec fn after_steps(
    u: RulesView,
    fr: Frame,
    v: Sight,
    f: Functions,
    y: State,
    fourth: bool,
    n: nat,
) -> State
    decreases n,
{
    if n == 0 {
        y
    } else {
        stepped(u, fr, v, f, after_steps(u, fr, v, f, y, fourth, (n - 1) as nat), fourth)
    }
}

/// Whether two states agree below a slot.
spec fn agree(x: State, y: State, slots: usize) -> bool {
    forall|i: usize| i < slots ==> #[trigger] x(i) == y(i)
}

/// Whether two frames name the same slots.
spec fn alike(a: Frame, b: Frame) -> bool {
    a.sn == b.sn && a.slots == b.slots
}

/// Whether rules write and read no slot past those of a frame.
spec fn covered(u: RulesView, fr: Frame) -> bool {
    &&& forall|i: int|
        0 <= i < u.rules.len() ==> below(
            span((#[trigger] u.rules[i]).1, fr.sn),
            fr.slots as int,
        ) && below(rule_slot(u.rules[i].0, fr.sn), fr.slots as int)
    &&& u.when matches Some(w) ==> below(span(w, fr.sn), fr.slots as int)
}

proof fn lemma_spans(u: RulesView, sn: Layout, n: nat)
    requires
        n <= u.rules.len(),
    ensures
        forall|i: int|
            0 <= i < n ==> {
                &&& below(
                    span((#[trigger] u.rules[i]).1, sn),
                    match span_rhs(u.rules, n, sn) {
                        Some(k) => k + 1,
                        None => 0,
                    },
                )
                &&& below(
                    rule_slot(u.rules[i].0, sn),
                    match span_lhs(u.rules, n, sn) {
                        Some(k) => k + 1,
                        None => 0,
                    },
                )
            },
    decreases n,
{
    if n > 0 {
        lemma_spans(u, sn, (n - 1) as nat);
    }
}

proof fn lemma_rate_agrees(
    u: RulesView,
    a: Frame,
    b: Frame,
    v: Sight,
    f: Functions,
    x: State,
    y: State,
    slot: usize,
    n: nat,
)
    requires
        alike(a, b),
        agree(x, y, a.slots),
        covered(u, a),
    ensures
        rate(u, a, v, f, x, slot, n) == rate(u, b, v, f, y, slot, n),
    decreases n,
{
    if n == 0 || n > u.rules.len() {
    } else if rule_slot(u.rules[n - 1].0, a.sn) == Some(slot) {
        assert(alike_below(seen_in(v, x), seen_in(v, y), a.slots as int));
        law_value_depends_on_its_span(
            u.rules[n - 1].1,
            rule_names(u, a),
            seen_in(v, x),
            seen_in(v, y),
            f,
            a.slots as int,
        );
    } else {
        lemma_rate_agrees(u, a, b, v, f, x, y, slot, (n - 1) as nat);
    }
}

proof fn lemma_rates_agree(
    u: RulesView,
    a: Frame,
    b: Frame,
    v: Sight,
    f: Functions,
    x: State,
    y: State,
)
    requires
        alike(a, b),
        agree(x, y, a.slots),
        covered(u, a),
    ensures
        agree(rates(u, a, v, f, x), rates(u, b, v, f, y), a.slots),
{
    assert forall|i: usize| i < a.slots implies #[trigger] rates(u, a, v, f, x)(i) == rates(
        u,
        b,
        v,
        f,
        y,
    )(i) by {
        lemma_rate_agrees(u, a, b, v, f, x, y, i, u.rules.len());
    }
}

proof fn lemma_moved_agrees(x: State, y: State, by: real, j: State, k: State, slots: usize)
    requires
        agree(x, y, slots),
        agree(j, k, slots),
    ensures
        agree(moved(x, by, j), moved(y, by, k), slots),
{
    assert forall|i: usize| i < slots implies #[trigger] moved(x, by, j)(i) == moved(
        y,
        by,
        k,
    )(i) by {
        assert(x(i) == y(i) && j(i) == k(i));
    }
}

proof fn lemma_stepped_agrees(
    u: RulesView,
    a: Frame,
    b: Frame,
    v: Sight,
    f: Functions,
    x: State,
    y: State,
    fourth: bool,
)
    requires
        alike(a, b),
        agree(x, y, a.slots),
        covered(u, a),
    ensures
        agree(stepped(u, a, v, f, x, fourth), stepped(u, b, v, f, y, fourth), a.slots),
{
    let h = number_of(u.dt) / (u.substeps as u64 as real);
    let half = h / (2 as real);
    let j1 = rates(u, a, v, f, x);
    let k1 = rates(u, b, v, f, y);
    lemma_rates_agree(u, a, b, v, f, x, y);
    lemma_moved_agrees(x, y, half, j1, k1, a.slots);
    let j2 = rates(u, a, v, f, moved(x, half, j1));
    let k2 = rates(u, b, v, f, moved(y, half, k1));
    lemma_rates_agree(u, a, b, v, f, moved(x, half, j1), moved(y, half, k1));
    lemma_moved_agrees(x, y, half, j2, k2, a.slots);
    let j3 = rates(u, a, v, f, moved(x, half, j2));
    let k3 = rates(u, b, v, f, moved(y, half, k2));
    lemma_rates_agree(u, a, b, v, f, moved(x, half, j2), moved(y, half, k2));
    lemma_moved_agrees(x, y, h, j3, k3, a.slots);
    let j4 = rates(u, a, v, f, moved(x, h, j3));
    let k4 = rates(u, b, v, f, moved(y, h, k3));
    lemma_rates_agree(u, a, b, v, f, moved(x, h, j3), moved(y, h, k3));
    if let Some(w) = u.when {
        assert(alike_below(seen_in(v, x), seen_in(v, y), a.slots as int));
        law_value_depends_on_its_span(
            w,
            rule_names(u, a),
            seen_in(v, x),
            seen_in(v, y),
            f,
            a.slots as int,
        );
    }
    assert forall|i: usize| i < a.slots implies #[trigger] stepped(u, a, v, f, x, fourth)(i)
        == stepped(u, b, v, f, y, fourth)(i) by {
        assert(has_rule(u, a, i) == has_rule(u, b, i));
        assert(x(i) == y(i) && j1(i) == k1(i) && j2(i) == k2(i) && j3(i) == k3(i) && j4(i)
            == k4(i));
    }
}

proof fn lemma_frame_goes_on(
    v: Sight,
    fr: Frame,
    a: Seq<InstructionView>,
    b: Seq<InstructionView>,
    f: Functions,
    m: Machine,
)
    requires
        frame_shows(v, fr, a, f, m),
        knows_frame(fr, resumed(a)),
        tidy(resumed(a), 1),
        grown(a, b),
        small(resumed(b), 1),
        forall|at: ComponentRefView|
            at.component != ComponentView::State ==> #[trigger] run(b, f, m).world[at] == run(
                a,
                f,
                m,
            ).world[at],
    ensures
        frame_shows(v, fr, b, f, m),
        knows_frame(fr, resumed(b)),
{
    let c = frame_ctx(fr);
    let s = resumed(a);
    let t = resumed(b);
    lemma_frame_stays(fr, s, t);
    lemma_registers_stay(s, t, f, m);
    assert forall|id: u128, slot: usize|
        (v.foreign)(id, slot) == read_by(t, #[trigger] ref_reg(c, id, slot), f, m) by {
        let r = ref_reg(c, id, slot);
        assert(has_some(s, 1, reg_get(fr.ref_regs, id, PropKind::State(slot))));
        assert(r == 0 || held_by(t, r, f, m) == held_by(s, r, f, m));
    }
    assert forall|id: u128, kind: PropKind|
        (v.property)(id, kind) == read_by(t, #[trigger] prop_reg(c, id, kind), f, m) by {
        let r = prop_reg(c, id, kind);
        assert(has_some(s, 1, reg_get(fr.prop_regs, id, kind)));
        assert(r == 0 || held_by(t, r, f, m) == held_by(s, r, f, m));
    }
}

/// The substeps of either kind of system.
spec fn substeps_of(
    u: RulesView,
    fr: Frame,
    fourth: bool,
    n: nat,
    out: Seq<InstructionView>,
) -> Seq<InstructionView> {
    if fourth {
        rk4_substeps(u, fr, n, out)
    } else {
        update_substeps(u, fr, n, out)
    }
}

/// Whether the laws of a substep hold of a system.
spec fn regular(u: RulesView, fr: Frame, fourth: bool) -> bool {
    &&& sound_rules(u, fr)
    &&& covered(u, fr)
    &&& u.when matches Some(w) ==> plain(w, rule_names(u, fr))
    &&& !fourth ==> u.dyn_rules.len() == 0
}

/// Whether fields but for slots of an entity are as they were.
spec fn keeps_rest(w: Fields, now: Fields, fr: Frame) -> bool {
    forall|at: ComponentRefView|
        (forall|slot: int| 0 <= slot < fr.slots ==> at != #[trigger] slot_of(fr.entity, slot))
            ==> #[trigger] now[at] == w[at]
}

#[verifier::rlimit(40)]
proof fn lemma_substeps(
    u: RulesView,
    fr: Frame,
    bare: Frame,
    v: Sight,
    fourth: bool,
    n: nat,
    out: Seq<InstructionView>,
    f: Functions,
    m: Machine,
)
    requires
        regular(u, fr, fourth),
        alike(fr, bare),
        tidy(resumed(out), 1),
        knows_frame(fr, resumed(out)),
        frame_shows(v, fr, out, f, m),
        1 + substeps_of(u, fr, fourth, n, out).len() < u32::MAX,
    ensures
        ({
            let done = substeps_of(u, fr, fourth, n, out);
            let w = run(out, f, m).world;
            let now = run(done, f, m).world;
            &&& frame_shows(v, fr, done, f, m)
            &&& knows_frame(fr, resumed(done))
            &&& agree(
                state_in(now, fr.entity),
                after_steps(u, bare, v, f, state_in(w, fr.entity), fourth, n),
                fr.slots,
            )
            &&& keeps_rest(w, now, fr)
        }),
    decreases n,
{
    let w = run(out, f, m).world;
    if n > 0 {
        let k = (n - 1) as nat;
        let before = substeps_of(u, fr, fourth, k, out);
        let done = substeps_of(u, fr, fourth, n, out);
        if fourth {
            lemma_rk4_substeps(u, fr, k, out);
            lemma_frame_stays(fr, resumed(out), resumed(before));
            lemma_rk4_substep(u, fr, before);
        } else {
            lemma_update_substeps(u, fr, k, out);
            lemma_frame_stays(fr, resumed(out), resumed(before));
            lemma_update_substep(u, fr, before);
        }
        assert(before.len() <= done.len());
        lemma_substeps(u, fr, bare, v, fourth, k, out, f, m);
        if fourth {
            law_rk4_substep(u, fr, v, before, f, m);
        } else {
            law_update_substep(u, fr, v, before, f, m);
        }
        let mid = run(before, f, m).world;
        let now = run(done, f, m).world;
        let x = slots_in(mid, fr.entity, fr.slots);
        let y = after_steps(u, bare, v, f, state_in(w, fr.entity), fourth, k);
        assert forall|i: usize| i < fr.slots implies #[trigger] x(i) == y(i) by {
            assert(state_in(mid, fr.entity)(i) == y(i));
        }
        lemma_stepped_agrees(u, fr, bare, v, f, x, y, fourth);
        assert forall|i: usize| i < fr.slots implies #[trigger] state_in(now, fr.entity)(i)
            == stepped(u, bare, v, f, y, fourth)(i) by {
            assert(now[slot_of(fr.entity, i as int)] == stepped(u, fr, v, f, x, fourth)(i));
        }
        assert forall|at: ComponentRefView|
            (forall|slot: int|
                0 <= slot < fr.slots ==> at != #[trigger] slot_of(
                    fr.entity,
                    slot,
                )) implies #[trigger] now[at] == w[at] by {
            assert(mid[at] == w[at]);
        }
        assert forall|at: ComponentRefView|
            at.component != ComponentView::State implies #[trigger] now[at] == mid[at] by {
            assert forall|slot: int| 0 <= slot < fr.slots implies at != #[trigger] slot_of(
                fr.entity,
                slot,
            ) by {}
        }
        lemma_frame_goes_on(v, fr, before, done, f, m);
    }
}

/// Whether the meaning of the rules of a system in an entity is defined here: there are no
/// statements, computed slots or schedule, and every expression is a function of what it
/// sees.
pub open spec fn well_ruled(u: RulesView, entity: u128) -> bool {
    let names = rule_names(u, frame_of(u, entity, 0));
    &&& u.lets.len() == 0
    &&& u.dyn_rules.len() == 0
    &&& u.every is None
    &&& forall|i: int| 0 <= i < u.rules.len() ==> plain((#[trigger] u.rules[i]).1, names)
    &&& u.when matches Some(w) ==> plain(w, names)
    &&& placed(rule_refs(u).slots)
    &&& placed(rule_refs(u).props)
}

proof fn lemma_framed(
    u: RulesView,
    entity: u128,
    slots: usize,
    start: Seq<InstructionView>,
    f: Functions,
    m: Machine,
)
    requires
        tidy(resumed(start), 1),
        placed(rule_refs(u).slots),
        placed(rule_refs(u).props),
        ({
            let refs = rule_refs(u);
            let (out1, ref_regs) = key_reads(start, refs.slots, refs.slots.len());
            1 + key_reads(out1, refs.props, refs.props.len()).0.len() < u32::MAX
        }),
    ensures
        ({
            let refs = rule_refs(u);
            let (out1, ref_regs) = key_reads(start, refs.slots, refs.slots.len());
            let (out2, prop_regs) = key_reads(out1, refs.props, refs.props.len());
            let fr = Frame { ref_regs, prop_regs, ..frame_of(u, entity, slots) };
            let w = run(start, f, m).world;
            &&& tidy(resumed(out2), 1)
            &&& knows_frame(fr, resumed(out2))
            &&& frame_shows(seen(w, entity, refs), fr, out2, f, m)
            &&& run(out2, f, m).world == w
        }),
{
    let refs = rule_refs(u);
    let (out1, ref_regs) = key_reads(start, refs.slots, refs.slots.len());
    let (out2, prop_regs) = key_reads(out1, refs.props, refs.props.len());
    let fr = Frame { ref_regs, prop_regs, ..frame_of(u, entity, slots) };
    lemma_keys(start, refs.slots, refs.slots.len());
    lemma_keys(out1, refs.props, refs.props.len());
    lemma_keys_stay(ref_regs, resumed(out1), resumed(out2));
    lemma_keys_read(start, refs.slots, refs.slots.len(), f, m);
    lemma_keys_read(out1, refs.props, refs.props.len(), f, m);
    assert(refs.slots.take(refs.slots.len() as int) =~= refs.slots);
    assert(refs.props.take(refs.props.len() as int) =~= refs.props);
    lemma_registers_stay(resumed(out1), resumed(out2), f, m);
    let w = run(start, f, m).world;
    let v = seen(w, entity, refs);
    let c = frame_ctx(fr);
    let s = resumed(out2);
    assert(v.local =~= (|name: Seq<char>| None::<real>));
    assert forall|id: u128, slot: usize|
        (v.foreign)(id, slot) == read_by(s, #[trigger] ref_reg(c, id, slot), f, m) by {
        if let Some(r) = reg_get(ref_regs, id, PropKind::State(slot)) {
            assert(held_by(s, r, f, m) == held_by(resumed(out1), r, f, m));
        }
    }
    assert forall|id: u128, kind: PropKind|
        (v.property)(id, kind) == read_by(s, #[trigger] prop_reg(c, id, kind), f, m) by {
        if let Some(r) = reg_get(prop_regs, id, kind) {
            assert(held_by(s, r, f, m) == run(out2, f, m).regs[r]);
        }
    }
}

proof fn lemma_regular(u: RulesView, fr: Frame, fourth: bool)
    requires
        well_ruled(u, fr.entity),
        fr.sn == layout_of(u.scope.state_names_by_id, fr.entity),
        fr.slots == (if fourth {
            rk4_slots(u, fr.sn)
        } else {
            update_slots(u, fr.sn)
        }),
        8 * fr.slots <= u32::MAX,
    ensures
        regular(u, fr, fourth),
        past(span_cond(u.when, fr.sn)) <= fr.slots,
{
    lemma_spans(u, fr.sn, u.rules.len());
    assert forall|i: int| 0 <= i < u.rules.len() implies below(
        span((#[trigger] u.rules[i]).1, fr.sn),
        fr.slots as int,
    ) && below(rule_slot(u.rules[i].0, fr.sn), fr.slots as int) && plain(
        u.rules[i].1,
        rule_names(u, fr),
    ) by {}
}

/// The function of a rule system: the fields of its entity's slots after it.
pub open spec fn takes_steps(
    u: RulesView,
    entity: u128,
    slots: usize,
    fourth: bool,
    w: Fields,
    now: Fields,
    f: Functions,
) -> bool {
    let y = after_steps(
        u,
        frame_of(u, entity, slots),
        seen(w, entity, rule_refs(u)),
        f,
        state_in(w, entity),
        fourth,
        u.substeps as nat,
    );
    &&& forall|slot: usize|
        slot < slots ==> #[trigger] now[slot_of(entity, slot as int)] == y(slot)
    &&& forall|at: ComponentRefView|
        (forall|slot: int| 0 <= slot < slots ==> at != #[trigger] slot_of(entity, slot))
            ==> #[trigger] now[at] == w[at]
}

proof fn lemma_taken(
    u: RulesView,
    entity: u128,
    slots: usize,
    fourth: bool,
    w: Fields,
    now: Fields,
    f: Functions,
)
    requires
        agree(
            state_in(now, entity),
            after_steps(
                u,
                frame_of(u, entity, slots),
                seen(w, entity, rule_refs(u)),
                f,
                state_in(w, entity),
                fourth,
                u.substeps as nat,
            ),
            slots,
        ),
        keeps_rest(w, now, frame_of(u, entity, slots)),
    ensures
        takes_steps(u, entity, slots, fourth, w, now, f),
{
    let y = after_steps(
        u,
        frame_of(u, entity, slots),
        seen(w, entity, rule_refs(u)),
        f,
        state_in(w, entity),
        fourth,
        u.substeps as nat,
    );
    assert forall|slot: usize| slot < slots implies #[trigger] now[slot_of(entity, slot as int)]
        == y(slot) by {
        assert(state_in(now, entity)(slot) == y(slot));
    }
}

/// The function of an `rk4` system takes as many fourth-order Runge-Kutta steps as there
/// are substeps, from the state of the entity. Every slot that a rule or the condition
/// names counts. It changes nothing else, and leaves other entities alone.
pub proof fn law_rk4_function(
    sys: Rk4System,
    entity: u128,
    out: Seq<InstructionView>,
    f: Functions,
    m: Machine,
)
    requires
        follows(out, sys.lowered(entity, out)),
        well_ruled(sys@, entity),
        8 * rk4_slots(sys@, layout_of(sys@.scope.state_names_by_id, entity)) <= u32::MAX,
    ensures
        ({
            let u = sys@;
            let w = run(out, f, m).world;
            let now = run(sys.lowered(entity, out), f, m).world;
            if u.only matches Some(ids) ==> ids.contains(entity) {
                takes_steps(
                    u,
                    entity,
                    rk4_slots(u, layout_of(u.scope.state_names_by_id, entity)),
                    true,
                    w,
                    now,
                    f,
                )
            } else {
                now == w
            }
        }),
{
    broadcast use lemma_run_push;

    let u = sys@;
    let w = run(out, f, m).world;
    if applies(u.only, entity) {
        let slots = rk4_slots(u, layout_of(u.scope.state_names_by_id, entity));
        let refs = rule_refs(u);
        let (out1, ref_regs) = key_reads(out, refs.slots, refs.slots.len());
        let (out2, prop_regs) = key_reads(out1, refs.props, refs.props.len());
        let bare = frame_of(u, entity, slots);
        let fr = Frame { ref_regs, prop_regs, ..bare };
        let done = rk4_substeps(u, fr, u.substeps as nat, out2);
        lemma_keys(out, refs.slots, refs.slots.len());
        lemma_keys(out1, refs.props, refs.props.len());
        lemma_keys_stay(ref_regs, resumed(out1), resumed(out2));
        lemma_rk4_substeps(u, fr, u.substeps as nat, out2);
        assert(out2.len() <= done.len());
        lemma_framed(u, entity, slots, out, f, m);
        lemma_regular(u, fr, true);
        let v = seen(w, entity, refs);
        lemma_substeps(u, fr, bare, v, true, u.substeps as nat, out2, f, m);
        let now = run(done, f, m).world;
        assert(run(sys.lowered(entity, out), f, m).world == now);
        lemma_taken(u, entity, slots, true, w, now, f);
    }
}

/// The function of an `update` system moves every slot with a rule along its rate, once
/// for each substep, from the state of the entity. Every slot that a rule or the condition
/// names counts. It changes nothing else, and leaves other entities alone.
pub proof fn law_update_function(
    sys: UpdateSystem,
    entity: u128,
    out: Seq<InstructionView>,
    f: Functions,
    m: Machine,
)
    requires
        follows(out, sys.lowered(entity, out)),
        well_ruled(sys@, entity),
        8 * update_slots(sys@, layout_of(sys@.scope.state_names_by_id, entity)) <= u32::MAX,
    ensures
        ({
            let u = sys@;
            let w = run(out, f, m).world;
            let now = run(sys.lowered(entity, out), f, m).world;
            if u.only matches Some(ids) ==> ids.contains(entity) {
                takes_steps(
                    u,
                    entity,
                    update_slots(u, layout_of(u.scope.state_names_by_id, entity)),
                    false,
                    w,
                    now,
                    f,
                )
            } else {
                now == w
            }
        }),
{
    broadcast use lemma_run_push;

    let u = sys@;
    let w = run(out, f, m).world;
    if applies(u.only, entity) {
        let slots = update_slots(u, layout_of(u.scope.state_names_by_id, entity));
        let refs = rule_refs(u);
        let (out1, ref_regs) = key_reads(out, refs.slots, refs.slots.len());
        let (out2, prop_regs) = key_reads(out1, refs.props, refs.props.len());
        let bare = frame_of(u, entity, slots);
        let fr = Frame { ref_regs, prop_regs, ..bare };
        let done = update_substeps(u, fr, u.substeps as nat, out2);
        lemma_keys(out, refs.slots, refs.slots.len());
        lemma_keys(out1, refs.props, refs.props.len());
        lemma_keys_stay(ref_regs, resumed(out1), resumed(out2));
        lemma_update_substeps(u, fr, u.substeps as nat, out2);
        assert(out2.len() <= done.len());
        lemma_framed(u, entity, slots, out, f, m);
        lemma_regular(u, fr, false);
        let v = seen(w, entity, refs);
        lemma_substeps(u, fr, bare, v, false, u.substeps as nat, out2, f, m);
        let now = run(done, f, m).world;
        assert(run(sys.lowered(entity, out), f, m).world == now);
        lemma_taken(u, entity, slots, false, w, now, f);
    }
}

} // verus!
