//! What the systems that observe the state do, in exact arithmetic: senders, invariants,
//! watches and the release of pool slots.

use crate::chan::{ChanOp, ChanSystem};
use crate::checks::{crossing_of, observed, InvariantSystem, WatchSystem};
use crate::eir::{slot_offset, ComponentRefView, ComponentView, InstructionView, Opcode, ONE, ZERO};
use crate::emit::{
    bits_of, known_of, op_of, read_of, resumed, select_bool_of, test_of, write_of, Emit,
};
use crate::evaluation::{
    below, law_value_depends_on_its_span, lemma_select_bool_value, lemma_shows, lemma_value,
    names_of, plain, read_by, shows, value, Names, Sight,
};
use crate::expr::{ExprView, PropKind};
use crate::functions::{
    grown, lemma_crossing, lemma_keys, lemma_observed, lemma_reg_pushed, lemma_resume, lemma_slots,
};
use crate::integration::lemma_slots_read;
use crate::lower::lower_expr_spec;
use crate::meaning::{
    followed, group_follow, held_by, lemma_numbers, lemma_registers_stay, lemma_run_push,
    lemma_world_stays, run, truth, Functions, Machine,
};
use crate::motion::{axis_of, follows, slot_of, Fields};
use crate::numbering::{after, group_code, has, small, tidy, yields};
use crate::pools::DespawnSystem;
use crate::refs::{no_refs, refs_of, span, Key, RefsView};
use crate::registers::{knows, lemma_expr, lemma_knows};
use crate::rules::{
    applies, key_reads, lemma_slot_reads_len, only_view, prop_target, slot_reads, EirSystem,
};
use crate::scope::{
    layout_of, prop_reg, ref_reg, reg_get, slot_reg, CtxView, Layout, PartsView, ScopeView,
};
use crate::simultaneity::still;
use crate::update::{at_least, past};
use vstd::prelude::*;

verus! {

broadcast use group_code;

/// The field that holds a property of an entity.
pub open spec fn place_of(id: u128, kind: PropKind) -> ComponentRefView {
    match kind {
        PropKind::Mass => ComponentRefView {
            entity: id,
            component: ComponentView::RigidBody,
            offset: 0,
        },
        PropKind::IsDynamic => ComponentRefView {
            entity: id,
            component: ComponentView::RigidBody,
            offset: 24,
        },
        PropKind::PositionX => axis_of(id, ComponentView::Transform, 0),
        PropKind::PositionY => axis_of(id, ComponentView::Transform, 1),
        PropKind::PositionZ => axis_of(id, ComponentView::Transform, 2),
        PropKind::VelocityX => axis_of(id, ComponentView::Velocity, 0),
        PropKind::VelocityY => axis_of(id, ComponentView::Velocity, 1),
        PropKind::VelocityZ => axis_of(id, ComponentView::Velocity, 2),
        PropKind::State(slot) => slot_of(id, slot as int),
    }
}

/// Whether the slots of a list of properties have places of their own.
pub open spec fn placed(keys: Seq<Key>) -> bool {
    forall|i: int|
        0 <= i < keys.len() ==> ((#[trigger] keys[i]).1 matches PropKind::State(slot) ==> 8 * slot
            <= u32::MAX)
}

/// What a listed property is in the world; one that is not listed counts as zero.
pub open spec fn listed(keys: Seq<Key>, w: Fields, id: u128, kind: PropKind) -> real {
    if keys.contains((id, kind)) {
        w[place_of(id, kind)]
    } else {
        0 as real
    }
}

/// What an expression sees of the world: the slots of its entity, what is listed of other
/// entities, the parameters and the clock.
pub open spec fn seen(w: Fields, entity: u128, refs: RefsView) -> Sight {
    Sight {
        slot: |i: usize| w[slot_of(entity, i as int)],
        local: |name: Seq<char>| None,
        foreign: |id: u128, slot: usize| listed(refs.slots, w, id, PropKind::State(slot)),
        property: |id: u128, kind: PropKind| listed(refs.props, w, id, kind),
        param: |name: Seq<char>|
            w[ComponentRefView { entity: 0, component: ComponentView::Param(name), offset: 0 }],
        time: w[ComponentRefView { entity: 0, component: ComponentView::SimTime, offset: 0 }],
    }
}

pub proof fn lemma_keys_read(
    out: Seq<InstructionView>,
    keys: Seq<Key>,
    n: nat,
    f: Functions,
    m: Machine,
)
    requires
        tidy(resumed(out), 1),
        placed(keys),
        n <= keys.len(),
        1 + key_reads(out, keys, n).0.len() < u32::MAX,
    ensures
        ({
            let (done, regs) = key_reads(out, keys, n);
            let w = run(out, f, m).world;
            &&& run(done, f, m).world == w
            &&& forall|id: u128, kind: PropKind|
                (match #[trigger] reg_get(regs, id, kind) {
                    Some(r) => has(resumed(done), 1, r) && run(done, f, m).regs[r] == w[place_of(
                        id,
                        kind,
                    )] && keys.take(n as int).contains((id, kind)),
                    None => !keys.take(n as int).contains((id, kind)),
                })
        }),
    decreases n,
{
    lemma_keys(out, keys, n);
    if n > 0 {
        lemma_keys(out, keys, (n - 1) as nat);
        let (out1, regs) = key_reads(out, keys, (n - 1) as nat);
        let (done, all) = key_reads(out, keys, n);
        let key = keys[n - 1];
        let target = prop_target(key.1);
        let s1 = resumed(out1);
        let (s, r) = read_of(s1, key.0, target.0, target.1);
        let w = run(out, f, m).world;
        assert(done == s.out);
        lemma_keys_read(out, keys, (n - 1) as nat, f, m);
        assert(held_by(s, r, f, m) == w[place_of(key.0, key.1)] && run(s.out, f, m).world == w
            && tidy(s, 1) && has(s, 1, r) && after(s1, s, 1)) by {
            broadcast use group_follow;

            assert(followed(f, m));
            if let PropKind::State(slot) = key.1 {
                assert(slot_offset(slot) == 8 * slot);
            }
        }
        lemma_resume(s);
        lemma_registers_stay(s1, s, f, m);
        let before = keys.take(n - 1);
        let now = keys.take(n as int);
        assert(now =~= before.push(key));
        assert forall|id: u128, kind: PropKind|
            (match #[trigger] reg_get(all, id, kind) {
                Some(r) => has(resumed(done), 1, r) && run(done, f, m).regs[r] == w[place_of(
                    id,
                    kind,
                )] && now.contains((id, kind)),
                None => !now.contains((id, kind)),
            }) by {
            lemma_reg_pushed(regs, (key.0, key.1, r), id, kind);
            assert(now[n - 1] == key);
            match reg_get(regs, id, kind) {
                Some(q) => {
                    assert(held_by(s, q, f, m) == held_by(s1, q, f, m));
                    let i = choose|i: int| 0 <= i < before.len() && before[i] == (id, kind);
                    assert(now[i] == (id, kind));
                },
                None => {
                    if now.contains((id, kind)) {
                        let i = choose|i: int| 0 <= i < now.len() && now[i] == (id, kind);
                        if i < n - 1 {
                            assert(before[i] == (id, kind));
                        }
                    }
                },
            }
        }
    }
}

/// The sight of an expression that sees so many slots of its entity.
spec fn narrowed(v: Sight, slots: int) -> Sight {
    Sight {
        slot: |i: usize|
            if i < slots {
                (v.slot)(i)
            } else {
                0 as real
            },
        ..v
    }
}

/// Whether the registers of what is observed hold what is seen.
#[verifier::rlimit(40)]
proof fn lemma_sees(
    scope: ScopeView,
    sn: Layout,
    entity: u128,
    slots: usize,
    refs: RefsView,
    start: Seq<InstructionView>,
    f: Functions,
    m: Machine,
)
    requires
        tidy(resumed(start), 1),
        8 * slots <= u32::MAX,
        placed(refs.slots),
        placed(refs.props),
        1 + observed(scope, entity, slots, refs, start).0.len() < u32::MAX,
    ensures
        ({
            let (out, parts) = observed(scope, entity, slots, refs, start);
            let c = CtxView {
                parts: PartsView { state_names: sn, ..parts },
                locals: Seq::empty(),
            };
            let w = run(start, f, m).world;
            &&& grown(start, out)
            &&& knows(c, resumed(out), 1)
            &&& run(out, f, m).world == w
            &&& shows(narrowed(seen(w, entity, refs), slots as int), c, resumed(out), f, m)
        }),
{
    let w = run(start, f, m).world;
    let (out1, slot_regs) = slot_reads(start, entity, slots as nat);
    let (out2, ref_regs) = key_reads(out1, refs.slots, refs.slots.len());
    let (out3, prop_regs) = key_reads(out2, refs.props, refs.props.len());
    let (out, parts) = observed(scope, entity, slots, refs, start);
    lemma_observed(scope, entity, slots, refs, start);
    lemma_slots(start, entity, slots as nat);
    lemma_slot_reads_len(start, entity, slots as nat);
    lemma_keys(out1, refs.slots, refs.slots.len());
    lemma_keys(out2, refs.props, refs.props.len());
    assert(out1.len() <= out2.len() <= out3.len());
    lemma_slots_read(start, entity, slots as nat, slots, f, m);
    lemma_keys_read(out1, refs.slots, refs.slots.len(), f, m);
    lemma_keys_read(out2, refs.props, refs.props.len(), f, m);
    assert(refs.slots.take(refs.slots.len() as int) =~= refs.slots);
    assert(refs.props.take(refs.props.len() as int) =~= refs.props);
    lemma_registers_stay(resumed(out1), resumed(out3), f, m);
    lemma_registers_stay(resumed(out2), resumed(out3), f, m);
    let c = CtxView { parts: PartsView { state_names: sn, ..parts }, locals: Seq::empty() };
    let s = resumed(out3);
    let v = narrowed(seen(w, entity, refs), slots as int);
    assert forall|i: usize| (v.slot)(i) == read_by(s, #[trigger] slot_reg(c, i), f, m) by {
        if i < slots {
            let r = slot_regs[i as int];
            assert(has(resumed(out1), 1, r));
            assert(run(out1, f, m).regs[r] == w[slot_of(entity, i as int)]);
            assert(held_by(s, r, f, m) == held_by(resumed(out1), r, f, m));
        }
    }
    assert forall|id: u128, slot: usize|
        (v.foreign)(id, slot) == read_by(s, #[trigger] ref_reg(c, id, slot), f, m) by {
        if let Some(r) = reg_get(ref_regs, id, PropKind::State(slot)) {
            assert(held_by(s, r, f, m) == held_by(resumed(out2), r, f, m));
        }
    }
    assert forall|id: u128, kind: PropKind|
        (v.property)(id, kind) == read_by(s, #[trigger] prop_reg(c, id, kind), f, m) by {
        if let Some(r) = reg_get(prop_regs, id, kind) {
            assert(held_by(s, r, f, m) == run(out3, f, m).regs[r]);
        }
    }
}

/// What an observed expression computes.
proof fn lemma_observed_value(
    e: ExprView,
    scope: ScopeView,
    sn: Layout,
    entity: u128,
    slots: usize,
    refs: RefsView,
    start: Seq<InstructionView>,
    f: Functions,
    m: Machine,
)
    requires
        tidy(resumed(start), 1),
        8 * slots <= u32::MAX,
        placed(refs.slots),
        placed(refs.props),
        plain(e, Names { scope, layout: sn }),
        below(span(e, sn), slots as int),
        ({
            let (out, parts) = observed(scope, entity, slots, refs, start);
            let c = CtxView {
                parts: PartsView { state_names: sn, ..parts },
                locals: Seq::empty(),
            };
            1 + lower_expr_spec(e, c, resumed(out)).0.out.len() < u32::MAX
        }),
    ensures
        ({
            let (out, parts) = observed(scope, entity, slots, refs, start);
            let c = CtxView {
                parts: PartsView { state_names: sn, ..parts },
                locals: Seq::empty(),
            };
            let (t, r) = lower_expr_spec(e, c, resumed(out));
            let w = run(start, f, m).world;
            &&& yields(resumed(out), (t, r), 1)
            &&& tidy(t, 1)
            &&& out.len() <= t.out.len()
            &&& held_by(t, r, f, m) == value(
                e,
                Names { scope, layout: sn },
                seen(w, entity, refs),
                f,
            )
            &&& run(t.out, f, m).world == w
            &&& forall|i: usize|
                i < slots ==> has(t, 1, #[trigger] slot_reg(c, i)) && held_by(
                    t,
                    slot_reg(c, i),
                    f,
                    m,
                ) == w[slot_of(entity, i as int)]
        }),
{
    let (out, parts) = observed(scope, entity, slots, refs, start);
    let c = CtxView { parts: PartsView { state_names: sn, ..parts }, locals: Seq::empty() };
    let s = resumed(out);
    let w = run(start, f, m).world;
    lemma_observed(scope, entity, slots, refs, start);
    assert(knows(c, s, 1));
    lemma_expr(e, c, s, 1);
    lemma_sees(scope, sn, entity, slots, refs, start, f, m);
    let v = seen(w, entity, refs);
    let seen_here = narrowed(v, slots as int);
    assert(names_of(c) == (Names { scope, layout: sn }));
    lemma_value(e, c, s, seen_here, f, m);
    let (t, r) = lower_expr_spec(e, c, s);
    lemma_world_stays(s.out, t.out, f, m);
    law_value_depends_on_its_span(e, names_of(c), seen_here, v, f, slots as int);
    lemma_registers_stay(s, t, f, m);
    lemma_slot_reads_len(start, entity, slots as nat);
    assert forall|i: usize| i < slots implies has(t, 1, #[trigger] slot_reg(c, i)) && held_by(
        t,
        slot_reg(c, i),
        f,
        m,
    ) == w[slot_of(entity, i as int)] by {
        let q = slot_reg(c, i);
        assert(q == c.parts.slot_regs[i as int]);
        assert(has(s, 1, q));
        assert((seen_here.slot)(i) == read_by(s, slot_reg(c, i), f, m));
        assert(small(s, 1));
    }
}

/// Sending makes the value of the expression that of the channel, and changes nothing
/// else.
pub proof fn law_send(
    sys: ChanSystem,
    e: ExprView,
    entity: u128,
    out: Seq<InstructionView>,
    f: Functions,
    m: Machine,
)
    requires
        sys.op == ChanOp::Send,
        sys.value matches Some(x) && x@ == e,
        follows(out, sys.lowered(entity, out)),
        8 * sys.slots <= u32::MAX,
        8 * past(span(e, sys.state_names@)) <= u32::MAX,
        plain(e, Names { scope: sys.scope@, layout: sys.state_names@ }),
        ({
            let refs = refs_of(e, sys.scope@.entity_map, sys.scope@.state_names_by_id, no_refs());
            placed(refs.slots) && placed(refs.props)
        }),
    ensures
        ({
            let refs = refs_of(e, sys.scope@.entity_map, sys.scope@.state_names_by_id, no_refs());
            let w = run(out, f, m).world;
            run(sys.lowered(entity, out), f, m).world == w.insert(
                slot_of(sys.channel_entity, 0),
                value(
                    e,
                    Names { scope: sys.scope@, layout: sys.state_names@ },
                    seen(w, entity, refs),
                    f,
                ),
            )
        }),
{
    let scope = sys.scope@;
    let sn = sys.state_names@;
    let refs = refs_of(e, scope.entity_map, scope.state_names_by_id, no_refs());
    let n = at_least(sys.slots, past(span(e, sn)));
    let (read, parts) = observed(scope, entity, n, refs, out);
    let c = CtxView { parts: PartsView { state_names: sn, ..parts }, locals: Seq::empty() };
    lemma_observed(scope, entity, n, refs, out);
    assert(knows(c, resumed(read), 1));
    lemma_expr(e, c, resumed(read), 1);
    let (t, r) = lower_expr_spec(e, c, resumed(read));
    let done = write_of(t, sys.channel_entity, ComponentView::State, slot_offset(0), r);
    assert(sys.lowered(entity, out) == crate::emit::return_of(done).out);
    lemma_observed_value(e, scope, sn, entity, n, refs, out, f, m);
    assert(slot_offset(0) == 0);
    broadcast use lemma_run_push;

    assert(run(done.out, f, m).world == run(t.out, f, m).world.insert(
        slot_of(sys.channel_entity, 0),
        held_by(t, r, f, m),
    ));
}

/// What an expression of a program lists of other entities.
pub open spec fn listed_by(e: ExprView, scope: ScopeView) -> RefsView {
    refs_of(e, scope.entity_map, scope.state_names_by_id, no_refs())
}

/// Whether the value of an expression over the state of an entity is defined here.
pub open spec fn observable(e: ExprView, scope: ScopeView, entity: u128) -> bool {
    let sn = layout_of(scope.state_names_by_id, entity);
    &&& plain(e, Names { scope, layout: sn })
    &&& 8 * past(span(e, sn)) <= u32::MAX
    &&& placed(listed_by(e, scope).slots)
    &&& placed(listed_by(e, scope).props)
}

/// The value of an expression over the state of an entity.
pub open spec fn observation(
    e: ExprView,
    scope: ScopeView,
    entity: u128,
    w: Fields,
    f: Functions,
) -> real {
    value(
        e,
        Names { scope, layout: layout_of(scope.state_names_by_id, entity) },
        seen(w, entity, listed_by(e, scope)),
        f,
    )
}

proof fn lemma_verdict_value(value: u32, s: Emit, f: Functions, m: Machine)
    requires
        tidy(s, 1),
        has(s, 1, value),
        s.out.len() + 5 < u32::MAX,
    ensures
        ({
            let (s1, zero) = bits_of(s, ZERO);
            let (s2, one) = bits_of(s1, ONE);
            let (s3, violated) = test_of(s2, Opcode::Eq, seq![value, zero]);
            let (s4, verdict) = op_of(s3, Opcode::Select, seq![violated, one, zero]);
            &&& held_by(s4, verdict, f, m) == truth(held_by(s, value, f, m) == 0 as real)
            &&& run(s4.out, f, m).world == run(s.out, f, m).world
        }),
{
    broadcast use group_follow;

    assert(followed(f, m));
    lemma_numbers();
    let (s1, zero) = bits_of(s, ZERO);
    let (s2, one) = bits_of(s1, ONE);
    let (s3, violated) = test_of(s2, Opcode::Eq, seq![value, zero]);
    let (s4, verdict) = op_of(s3, Opcode::Select, seq![violated, one, zero]);
    assert(held_by(s2, zero, f, m) == held_by(s1, zero, f, m));
    assert(held_by(s2, value, f, m) == held_by(s1, value, f, m));
    assert(held_by(s3, violated, f, m) == truth(
        held_by(s2, value, f, m) == held_by(s2, zero, f, m),
    ));
    assert(held_by(s3, one, f, m) == held_by(s2, one, f, m));
    assert(held_by(s3, zero, f, m) == held_by(s2, zero, f, m));
}

/// An invariant without statements writes its verdict, and nothing else: one where the
/// expression is zero, that is violated, and zero where it holds. Entities that it does
/// not check are left alone.
pub proof fn law_invariant(
    sys: InvariantSystem,
    entity: u128,
    out: Seq<InstructionView>,
    f: Functions,
    m: Machine,
)
    requires
        follows(out, sys.lowered(entity, out)),
        sys.lets@.len() == 0,
        observable(sys.expr@, sys.scope@, entity),
    ensures
        ({
            let w = run(out, f, m).world;
            let checked = sys.only matches Some(ids) ==> ids@.contains(entity);
            run(sys.lowered(entity, out), f, m).world == (if checked {
                w.insert(
                    ComponentRefView {
                        entity,
                        component: ComponentView::Check,
                        offset: sys.check_offset,
                    },
                    truth(observation(sys.expr@, sys.scope@, entity, w, f) == 0 as real),
                )
            } else {
                w
            })
        }),
{
    broadcast use lemma_run_push;

    let checked = sys.only matches Some(ids) ==> ids@.contains(entity);
    assert(applies(only_view(sys.only), entity) == checked);
    if checked {
        let e = sys.expr@;
        let scope = sys.scope@;
        let sn = layout_of(scope.state_names_by_id, entity);
        let refs = listed_by(e, scope);
        let lets = crate::expr::stmt_views(sys.lets@);
        assert(lets.len() == 0);
        let n = past(span(e, sn));
        let (read, parts) = observed(scope, entity, n, refs, out);
        let c = CtxView { parts, locals: Seq::empty() };
        assert(parts == PartsView { state_names: sn, ..parts });
        lemma_observed(scope, entity, n, refs, out);
        assert(knows(c, resumed(read), 1));
        lemma_expr(e, c, resumed(read), 1);
        let (t, r) = lower_expr_spec(e, c, resumed(read));
        let (s1, zero) = bits_of(t, ZERO);
        let (s2, one) = bits_of(s1, ONE);
        let (s3, violated) = test_of(s2, Opcode::Eq, seq![r, zero]);
        let (s4, verdict) = op_of(s3, Opcode::Select, seq![violated, one, zero]);
        let done = write_of(s4, entity, ComponentView::Check, sys.check_offset, verdict);
        assert(sys.lowered(entity, out) == crate::emit::return_of(done).out);
        lemma_observed_value(e, scope, sn, entity, n, refs, out, f, m);
        lemma_verdict_value(r, t, f, m);
        assert(run(done.out, f, m).world == run(s4.out, f, m).world.insert(
            ComponentRefView { entity, component: ComponentView::Check, offset: sys.check_offset },
            held_by(s4, verdict, f, m),
        ));
    }
}

/// One side of a crossing: whether a register compares so with zero.
proof fn lemma_side_value(
    opcode: Opcode,
    b: bool,
    a: u32,
    zero: u32,
    s: Emit,
    f: Functions,
    m: Machine,
)
    requires
        tidy(s, 1),
        has(s, 1, a),
        has(s, 1, zero),
        opcode == Opcode::Lt || opcode == Opcode::Gt,
        held_by(s, zero, f, m) == 0 as real,
        b == (if opcode == Opcode::Lt {
            held_by(s, a, f, m) < 0 as real
        } else {
            held_by(s, a, f, m) > 0 as real
        }),
        s.out.len() + 5 < u32::MAX,
    ensures
        ({
            let (s1, t) = test_of(s, opcode, seq![a, zero]);
            let (s2, r) = select_bool_of(s1, t);
            &&& yields(s, (s2, r), 1)
            &&& held_by(s2, r, f, m) == truth(b)
            &&& s2.out.len() == s.out.len() + 4
            &&& run(s2.out, f, m).world == run(s.out, f, m).world
            &&& forall|q: u32|
                has(s, 1, q) ==> #[trigger] held_by(s2, q, f, m) == held_by(s, q, f, m)
        }),
{
    crate::functions::lemma_side(opcode, a, zero, s);
    let (s1, t) = test_of(s, opcode, seq![a, zero]);
    assert(tidy(s1, 1) && has(s1, 1, t) && held_by(s1, t, f, m) == truth(b) && s1.out.len()
        == s.out.len() + 1 && run(s1.out, f, m).world == run(s.out, f, m).world) by {
        broadcast use group_follow;

        assert(followed(f, m));
    }
    lemma_select_bool_value(s1, t, b, f, m);
    let (s2, r) = select_bool_of(s1, t);
    lemma_registers_stay(s, s2, f, m);
    lemma_world_stays(s1.out, s2.out, f, m);
}

#[verifier::rlimit(40)]
proof fn lemma_crossing_value(a: u32, b: u32, s: Emit, f: Functions, m: Machine)
    requires
        tidy(s, 1),
        has(s, 1, a),
        has(s, 1, b),
        s.out.len() + 23 < u32::MAX,
    ensures
        ({
            let (t, r) = crossing_of(s, a, b);
            let x = held_by(s, a, f, m);
            let y = held_by(s, b, f, m);
            &&& yields(s, (t, r), 1)
            &&& t.out.len() == s.out.len() + 20
            &&& held_by(t, r, f, m) == truth(
                x < 0 as real && y > 0 as real || x > 0 as real && y < 0 as real,
            )
            &&& run(t.out, f, m).world == run(s.out, f, m).world
            &&& forall|q: u32|
                has(s, 1, q) ==> #[trigger] held_by(t, q, f, m) == held_by(s, q, f, m)
        }),
{
    let x = held_by(s, a, f, m);
    let y = held_by(s, b, f, m);
    lemma_crossing(a, b, s);
    let (s0, zero) = bits_of(s, ZERO);
    assert(tidy(s0, 1) && has(s0, 1, zero) && held_by(s0, zero, f, m) == 0 as real
        && s0.out.len() == s.out.len() + 1 && run(s0.out, f, m).world == run(s.out, f, m).world
        && after(s, s0, 1) && has(s0, 1, a) && has(s0, 1, b)) by {
        broadcast use group_follow;

        assert(followed(f, m));
        lemma_numbers();
    }
    lemma_registers_stay(s, s0, f, m);
    assert(held_by(s0, a, f, m) == x && held_by(s0, b, f, m) == y);
    lemma_side_value(Opcode::Lt, x < 0 as real, a, zero, s0, f, m);
    let (t1, c1) = test_of(s0, Opcode::Lt, seq![a, zero]);
    let (s1, a_below) = select_bool_of(t1, c1);
    assert(held_by(s1, a, f, m) == x && held_by(s1, b, f, m) == y && held_by(s1, zero, f, m)
        == 0 as real);
    lemma_side_value(Opcode::Gt, y > 0 as real, b, zero, s1, f, m);
    let (t2, c2) = test_of(s1, Opcode::Gt, seq![b, zero]);
    let (s2, b_above) = select_bool_of(t2, c2);
    assert(held_by(s2, a, f, m) == x && held_by(s2, b, f, m) == y && held_by(s2, zero, f, m)
        == 0 as real && held_by(s2, a_below, f, m) == truth(x < 0 as real));
    let (s3, up) = op_of(s2, Opcode::Mul, seq![a_below, b_above]);
    assert(tidy(s3, 1) && has(s3, 1, up) && after(s2, s3, 1) && s3.out.len() == s2.out.len() + 1
        && run(s3.out, f, m).world == run(s2.out, f, m).world && held_by(s3, up, f, m) == truth(
        x < 0 as real,
    ) * truth(y > 0 as real)) by {
        broadcast use group_follow;

        assert(followed(f, m));
    }
    lemma_registers_stay(s2, s3, f, m);
    assert(held_by(s3, a, f, m) == x && held_by(s3, b, f, m) == y && held_by(s3, zero, f, m)
        == 0 as real);
    lemma_side_value(Opcode::Gt, x > 0 as real, a, zero, s3, f, m);
    let (t4, c4) = test_of(s3, Opcode::Gt, seq![a, zero]);
    let (s4, a_above) = select_bool_of(t4, c4);
    assert(held_by(s4, b, f, m) == y && held_by(s4, zero, f, m) == 0 as real);
    assert(held_by(s4, up, f, m) == held_by(s3, up, f, m));
    lemma_side_value(Opcode::Lt, y < 0 as real, b, zero, s4, f, m);
    let (t5, c5) = test_of(s4, Opcode::Lt, seq![b, zero]);
    let (s5, b_below) = select_bool_of(t5, c5);
    assert(held_by(s5, a_above, f, m) == truth(x > 0 as real));
    assert(held_by(s5, up, f, m) == held_by(s4, up, f, m));
    let (s6, down) = op_of(s5, Opcode::Mul, seq![a_above, b_below]);
    let (s7, r) = op_of(s6, Opcode::Add, seq![up, down]);
    assert(held_by(s7, r, f, m) == truth(x < 0 as real) * truth(y > 0 as real) + truth(
        x > 0 as real,
    ) * truth(y < 0 as real) && s7.out.len() == s5.out.len() + 2 && run(s7.out, f, m).world
        == run(s5.out, f, m).world) by {
        broadcast use group_follow;

        assert(followed(f, m));
        assert(held_by(s6, down, f, m) == held_by(s5, a_above, f, m) * held_by(s5, b_below, f, m));
        assert(held_by(s6, up, f, m) == held_by(s5, up, f, m));
        assert(held_by(s7, r, f, m) == held_by(s6, up, f, m) + held_by(s6, down, f, m));
    }
    assert(crossing_of(s, a, b) == (s7, r));
    lemma_registers_stay(s, s7, f, m);
}

/// A watch raises its flag exactly where the expression goes from one strict side of zero
/// to the other between the remembered value and the present one, and remembers the
/// present one. It changes nothing else.
pub proof fn law_watch(
    sys: WatchSystem,
    entity: u128,
    out: Seq<InstructionView>,
    f: Functions,
    m: Machine,
)
    requires
        follows(out, sys.lowered(entity, out)),
        observable(sys.expr@, sys.scope@, entity),
        8 * sys.mem + 8 <= u32::MAX,
        8 * sys.into + 8 <= u32::MAX,
    ensures
        ({
            let w = run(out, f, m).world;
            let x = w[slot_of(entity, sys.mem as int)];
            let y = observation(sys.expr@, sys.scope@, entity, w, f);
            let crossed = x < 0 as real && y > 0 as real || x > 0 as real && y < 0 as real;
            let watched = sys.only matches Some(ids) ==> ids@.contains(entity);
            run(sys.lowered(entity, out), f, m).world == (if watched {
                w.insert(slot_of(entity, sys.into as int), truth(crossed)).insert(
                    slot_of(entity, sys.mem as int),
                    y,
                )
            } else {
                w
            })
        }),
{
    broadcast use lemma_run_push;

    let watched = sys.only matches Some(ids) ==> ids@.contains(entity);
    assert(applies(only_view(sys.only), entity) == watched);
    if watched {
        let e = sys.expr@;
        let scope = sys.scope@;
        let sn = layout_of(scope.state_names_by_id, entity);
        let refs = listed_by(e, scope);
        let n = past(
            crate::refs::later(span(e, sn), crate::refs::later(Some(sys.mem), Some(sys.into))),
        );
        assert(sys.mem < n && sys.into < n && below(span(e, sn), n as int) && 8 * n <= u32::MAX);
        let (read, parts) = observed(scope, entity, n, refs, out);
        let c = CtxView { parts, locals: Seq::empty() };
        assert(parts == PartsView { state_names: sn, ..parts });
        lemma_observed(scope, entity, n, refs, out);
        assert(knows(c, resumed(read), 1));
        lemma_expr(e, c, resumed(read), 1);
        let (t, v) = lower_expr_spec(e, c, resumed(read));
        lemma_knows(c, resumed(read), t, 1);
        crate::registers::lemma_slot(c, sys.mem, t, 1);
        let (s3, last) = known_of(t, slot_reg(c, sys.mem));
        lemma_crossing(last, v, s3);
        let (s4, crossing) = crossing_of(s3, last, v);
        let s5 = write_of(s4, entity, ComponentView::State, slot_offset(sys.into), crossing);
        let s6 = write_of(s5, entity, ComponentView::State, slot_offset(sys.mem), v);
        assert(sys.lowered(entity, out) == crate::emit::return_of(s6).out);
        assert(s4.out.len() == s3.out.len() + 20);
        lemma_observed_value(e, scope, sn, entity, n, refs, out, f, m);
        assert(has(t, 1, slot_reg(c, sys.mem)));
        assert(s3 == t && last == slot_reg(c, sys.mem));
        lemma_crossing_value(last, v, t, f, m);
        assert(slot_offset(sys.mem) == 8 * sys.mem && slot_offset(sys.into) == 8 * sys.into);
        let w = run(out, f, m).world;
        assert(run(s5.out, f, m).world == w.insert(
            slot_of(entity, sys.into as int),
            held_by(s4, crossing, f, m),
        ));
        assert(run(s5.out, f, m).regs == run(s4.out, f, m).regs);
        assert(run(s6.out, f, m).world == run(s5.out, f, m).world.insert(
            slot_of(entity, sys.mem as int),
            held_by(s4, v, f, m),
        ));
        assert(held_by(s4, v, f, m) == held_by(t, v, f, m));
    }
}

proof fn lemma_cleared_value(active: u32, when: u32, s: Emit, f: Functions, m: Machine)
    requires
        tidy(s, 1),
        has(s, 1, active),
        has(s, 1, when),
        s.out.len() + 9 < u32::MAX,
    ensures
        ({
            let (s1, zero) = bits_of(s, ZERO);
            let (s2, one) = bits_of(s1, ONE);
            let (s3, is_active) = test_of(s2, Opcode::Ne, seq![active, zero]);
            let (s4, active_flag) = op_of(s3, Opcode::Select, seq![is_active, one, zero]);
            let (s5, holds) = test_of(s4, Opcode::Ne, seq![when, zero]);
            let (s6, when_flag) = op_of(s5, Opcode::Select, seq![holds, one, zero]);
            let (s7, both) = op_of(s6, Opcode::Mul, seq![active_flag, when_flag]);
            let (s8, value) = op_of(s7, Opcode::Select, seq![both, zero, active_flag]);
            &&& held_by(s8, value, f, m) == truth(
                held_by(s, active, f, m) != 0 as real && held_by(s, when, f, m) == 0 as real,
            )
            &&& run(s8.out, f, m).world == run(s.out, f, m).world
        }),
{
    broadcast use group_follow;

    assert(followed(f, m));
    lemma_numbers();
    let x = held_by(s, active, f, m);
    let y = held_by(s, when, f, m);
    let (s1, zero) = bits_of(s, ZERO);
    assert(held_by(s1, zero, f, m) == 0 as real);
    assert(held_by(s1, active, f, m) == x && held_by(s1, when, f, m) == y);
    let (s2, one) = bits_of(s1, ONE);
    assert(held_by(s2, one, f, m) == 1 as real && held_by(s2, zero, f, m) == 0 as real);
    assert(held_by(s2, active, f, m) == x && held_by(s2, when, f, m) == y);
    let (s3, is_active) = test_of(s2, Opcode::Ne, seq![active, zero]);
    assert(held_by(s3, is_active, f, m) == truth(x != 0 as real));
    assert(held_by(s3, one, f, m) == 1 as real && held_by(s3, zero, f, m) == 0 as real);
    assert(held_by(s3, when, f, m) == y);
    let (s4, active_flag) = op_of(s3, Opcode::Select, seq![is_active, one, zero]);
    assert(held_by(s4, active_flag, f, m) == truth(x != 0 as real));
    assert(held_by(s4, one, f, m) == 1 as real && held_by(s4, zero, f, m) == 0 as real);
    assert(held_by(s4, when, f, m) == y);
    let (s5, holds) = test_of(s4, Opcode::Ne, seq![when, zero]);
    assert(held_by(s5, holds, f, m) == truth(y != 0 as real));
    assert(held_by(s5, one, f, m) == 1 as real && held_by(s5, zero, f, m) == 0 as real);
    assert(held_by(s5, active_flag, f, m) == truth(x != 0 as real));
    let (s6, when_flag) = op_of(s5, Opcode::Select, seq![holds, one, zero]);
    assert(held_by(s6, when_flag, f, m) == truth(y != 0 as real));
    assert(held_by(s6, zero, f, m) == 0 as real);
    assert(held_by(s6, active_flag, f, m) == truth(x != 0 as real));
    let (s7, both) = op_of(s6, Opcode::Mul, seq![active_flag, when_flag]);
    assert(held_by(s7, both, f, m) == truth(x != 0 as real) * truth(y != 0 as real));
    assert(held_by(s7, zero, f, m) == 0 as real);
    assert(held_by(s7, active_flag, f, m) == truth(x != 0 as real));
}

/// A release clears the flag of an active slot of its pool where the condition holds: the
/// flag is one afterwards where it was set and the condition is zero, and else zero. It
/// changes nothing else, and leaves entities outside the pool alone.
pub proof fn law_despawn(
    sys: DespawnSystem,
    entity: u128,
    out: Seq<InstructionView>,
    f: Functions,
    m: Machine,
)
    requires
        follows(out, sys.lowered(entity, out)),
        observable(sys.when@, sys.scope@, entity),
    ensures
        ({
            let w = run(out, f, m).world;
            let flag = ComponentRefView { entity, component: ComponentView::Active, offset: 0 };
            let stays = w[flag] != 0 as real && observation(sys.when@, sys.scope@, entity, w, f)
                == 0 as real;
            run(sys.lowered(entity, out), f, m).world == (if sys.pool_slots@.contains(entity) {
                w.insert(flag, truth(stays))
            } else {
                w
            })
        }),
{
    broadcast use lemma_run_push;

    if sys.pool_slots@.contains(entity) {
        let e = sys.when@;
        let scope = sys.scope@;
        let sn = layout_of(scope.state_names_by_id, entity);
        let refs = listed_by(e, scope);
        let n = past(span(e, sn));
        let (read, parts) = observed(scope, entity, n, refs, out);
        let c = CtxView { parts, locals: Seq::empty() };
        assert(parts == PartsView { state_names: sn, ..parts });
        lemma_observed(scope, entity, n, refs, out);
        let s0 = resumed(read);
        assert(knows(c, s0, 1));
        let (s1, active) = read_of(s0, entity, ComponentView::Active, 0);
        assert(yields(s0, (s1, active), 1)) by {
            broadcast use crate::numbering::lemma_result;

        }
        assert(still(s0, s1)) by {
            broadcast use crate::sensing::group_sensing;

        }
        lemma_knows(c, s0, s1, 1);
        lemma_expr(e, c, s1, 1);
        let (t, r) = lower_expr_spec(e, c, s1);
        let (t1, zero) = bits_of(t, ZERO);
        let (t2, one) = bits_of(t1, ONE);
        let (t3, is_active) = test_of(t2, Opcode::Ne, seq![active, zero]);
        let (t4, active_flag) = op_of(t3, Opcode::Select, seq![is_active, one, zero]);
        let (t5, holds) = test_of(t4, Opcode::Ne, seq![r, zero]);
        let (t6, when_flag) = op_of(t5, Opcode::Select, seq![holds, one, zero]);
        let (t7, both) = op_of(t6, Opcode::Mul, seq![active_flag, when_flag]);
        let (t8, kept) = op_of(t7, Opcode::Select, seq![both, zero, active_flag]);
        let done = write_of(t8, entity, ComponentView::Active, 0, kept);
        assert(sys.lowered(entity, out) == crate::emit::return_of(done).out);
        lemma_sees(scope, sn, entity, n, refs, out, f, m);
        let w = run(out, f, m).world;
        let v = seen(w, entity, refs);
        let near = narrowed(v, n as int);
        let flag = ComponentRefView { entity, component: ComponentView::Active, offset: 0 };
        lemma_shows(near, c, s0, s1, f, m);
        assert(held_by(s1, active, f, m) == w[flag] && run(s1.out, f, m).world == w) by {
            broadcast use group_follow;

            assert(followed(f, m));
        }
        assert(names_of(c) == (Names { scope, layout: sn }));
        lemma_value(e, c, s1, near, f, m);
        lemma_world_stays(s1.out, t.out, f, m);
        lemma_registers_stay(s1, t, f, m);
        law_value_depends_on_its_span(e, names_of(c), near, v, f, n as int);
        lemma_cleared_value(active, r, t, f, m);
        assert(run(done.out, f, m).world == run(t8.out, f, m).world.insert(
            flag,
            held_by(t8, kept, f, m),
        ));
    }
}

} // verus!
