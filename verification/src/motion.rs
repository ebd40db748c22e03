//! What the systems of bodies do to bodies, in exact arithmetic.

use crate::bodies::{
    advance, drag, drift, ground, is_finite, is_zero, kick, nb_read_of, pull, pulls, push_axis,
    triple_of, triple_write, wall_floor, wall_pair, DampingSystem, ForceSystem, GravitySystem,
    GroundContactSystem, IntegrateSystem, NbodySystem, Triple, WallSystem,
};
use crate::eir::{
    slot_offset, ComponentRefView, ComponentView, InstructionView, Opcode, Real, HALF, ONE, POS_X,
    POS_Y, POS_Z, SOFTENING, VEL_X, VEL_Y, VEL_Z, ZERO,
};
use crate::emit::{bits_of, const_of, effect_view, op_of, read_of, resumed, test_of, write_of, Emit};
use crate::functions::{
    has_triple, lemma_advance, lemma_drag, lemma_drift, lemma_pull, lemma_push_axis, lemma_summed,
    lemma_triple, lemma_triple_write, lemma_wall_pair,
};
use crate::meaning::{
    followed, group_follow, held_by, lemma_numbers, lemma_positive, lemma_registers_stay,
    lemma_run_push, magnitude, number_of, run, truth, two_to, Functions, Machine,
};
use crate::numbering::{after, group_code, tidy};
use crate::rules::EirSystem;
use vstd::prelude::*;

verus! {

broadcast use group_code;

/// The fields of the world.
pub type Fields = Map<ComponentRefView, real>;

/// The field of a vector component on an axis: x, y and z follow one another, eight bytes
/// each.
pub open spec fn axis_of(entity: u128, component: ComponentView, axis: int) -> ComponentRefView {
    ComponentRefView { entity, component, offset: (8 * axis) as u32 }
}

/// The field of a state slot: eight bytes each.
pub open spec fn slot_of(entity: u128, slot: int) -> ComponentRefView {
    ComponentRefView { entity, component: ComponentView::State, offset: (8 * slot) as u32 }
}

/// Whether code can be numbered and goes on from orderly code.
pub open spec fn follows(out: Seq<InstructionView>, all: Seq<InstructionView>) -> bool {
    tidy(resumed(out), 1) && 1 + all.len() < u32::MAX
}

proof fn lemma_kicked(
    entity: u128,
    offset: u32,
    a: u64,
    dt: u64,
    s: Emit,
    f: Functions,
    m: Machine,
)
    requires
        tidy(s, 1),
        s.out.len() + 5 < u32::MAX,
    ensures
        ({
            let t = kick(entity, offset, a, dt, s);
            let at = ComponentRefView { entity, component: ComponentView::Velocity, offset };
            let w = run(s.out, f, m).world;
            &&& t.out.len() == s.out.len() + 4
            &&& run(t.out, f, m).world == w.insert(at, w[at] + number_of(a) * number_of(dt))
        }),
{
    broadcast use group_follow;

    assert(followed(f, m));
    let (s1, delta) = const_of(s, Real::Product(a, dt));
    let (s2, vel) = read_of(s1, entity, ComponentView::Velocity, offset);
    let (s3, sum) = op_of(s2, Opcode::Add, seq![vel, delta]);
    assert(held_by(s3, sum, f, m) == held_by(s2, vel, f, m) + held_by(s2, delta, f, m));
}

/// Gravity adds the acceleration times the step to the vertical velocity, and changes
/// nothing else.
pub proof fn law_gravity(
    sys: GravitySystem,
    entity: u128,
    out: Seq<InstructionView>,
    f: Functions,
    m: Machine,
)
    requires
        follows(out, sys.lowered(entity, out)),
    ensures
        ({
            let w = run(out, f, m).world;
            let vy = axis_of(entity, ComponentView::Velocity, 1);
            run(sys.lowered(entity, out), f, m).world == w.insert(
                vy,
                w[vy] + number_of(sys.gravity_y) * number_of(sys.dt),
            )
        }),
{
    lemma_kicked(entity, VEL_Y, sys.gravity_y, sys.dt, resumed(out), f, m);
    broadcast use lemma_run_push;

}

/// Forces push along each axis: its acceleration times the step is added to the velocity,
/// and nothing else changes.
pub proof fn law_force(
    sys: ForceSystem,
    entity: u128,
    out: Seq<InstructionView>,
    f: Functions,
    m: Machine,
)
    requires
        follows(out, sys.lowered(entity, out)),
    ensures
        ({
            let w = run(out, f, m).world;
            let after = run(sys.lowered(entity, out), f, m).world;
            let v = |axis: int| axis_of(entity, ComponentView::Velocity, axis);
            forall|at: ComponentRefView| #[trigger]
                after[at] == w[at] + (if at == v(0) {
                    number_of(sys.ax) * number_of(sys.dt)
                } else if at == v(1) {
                    number_of(sys.ay) * number_of(sys.dt)
                } else if at == v(2) {
                    number_of(sys.az) * number_of(sys.dt)
                } else {
                    0 as real
                })
        }),
{
    broadcast use lemma_run_push;

    lemma_pushed(entity, VEL_X, sys.ax, sys.dt, out, f, m);
    let out1 = push_axis(entity, VEL_X, sys.ax, sys.dt, out);
    lemma_pushed(entity, VEL_Y, sys.ay, sys.dt, out1, f, m);
    let out2 = push_axis(entity, VEL_Y, sys.ay, sys.dt, out1);
    lemma_pushed(entity, VEL_Z, sys.az, sys.dt, out2, f, m);
}

pub proof fn lemma_zero(a: u64, x: real)
    requires
        is_zero(a),
    ensures
        number_of(a) * x == 0 as real,
{
    lemma_numbers();
    lemma_positive(1074);
    let t = two_to(1074);
    assert(0 as real / t == 0 as real) by (nonlinear_arith)
        requires
            t > 0 as real,
    ;
    assert(magnitude(0x8000_0000_0000_0000) == 0 as real / t);
    let z = number_of(a);
    assert(z * x == 0 as real) by (nonlinear_arith)
        requires
            z == 0 as real,
    ;
}

proof fn lemma_pushed(
    entity: u128,
    offset: u32,
    a: u64,
    dt: u64,
    out: Seq<InstructionView>,
    f: Functions,
    m: Machine,
)
    requires
        tidy(resumed(out), 1),
        1 + push_axis(entity, offset, a, dt, out).len() < u32::MAX,
    ensures
        ({
            let done = push_axis(entity, offset, a, dt, out);
            let at = ComponentRefView { entity, component: ComponentView::Velocity, offset };
            let w = run(out, f, m).world;
            &&& tidy(resumed(done), 1)
            &&& out.len() <= done.len()
            &&& forall|x: ComponentRefView| #[trigger]
                run(done, f, m).world[x] == w[x] + (if x == at {
                    number_of(a) * number_of(dt)
                } else {
                    0 as real
                })
        }),
{
    lemma_push_axis(entity, offset, a, dt, out);
    if is_zero(a) {
        lemma_zero(a, number_of(dt));
    } else {
        lemma_kicked(entity, offset, a, dt, resumed(out), f, m);
    }
}

proof fn lemma_drifted(
    entity: u128,
    pos: u32,
    vel: u32,
    dt: u64,
    out: Seq<InstructionView>,
    f: Functions,
    m: Machine,
)
    requires
        tidy(resumed(out), 1),
        1 + drift(entity, pos, vel, dt, out).len() < u32::MAX,
    ensures
        ({
            let done = drift(entity, pos, vel, dt, out);
            let p = ComponentRefView { entity, component: ComponentView::Transform, offset: pos };
            let v = ComponentRefView { entity, component: ComponentView::Velocity, offset: vel };
            let w = run(out, f, m).world;
            &&& tidy(resumed(done), 1)
            &&& done.len() == out.len() + 6
            &&& run(done, f, m).world == w.insert(p, w[p] + w[v] * number_of(dt))
        }),
{
    lemma_drift(entity, pos, vel, dt, out);
    broadcast use group_follow;

    assert(followed(f, m));
    let s0 = resumed(out);
    let (s1, p) = read_of(s0, entity, ComponentView::Transform, pos);
    let (s2, v) = read_of(s1, entity, ComponentView::Velocity, vel);
    let (s3, step) = bits_of(s2, dt);
    let (s4, moved) = op_of(s3, Opcode::Mul, seq![v, step]);
    let (s5, new) = op_of(s4, Opcode::Add, seq![p, moved]);
    assert(held_by(s4, moved, f, m) == held_by(s3, v, f, m) * held_by(s3, step, f, m));
    assert(held_by(s5, new, f, m) == held_by(s4, p, f, m) + held_by(s4, moved, f, m));
}

/// Integration moves the position on each axis by the velocity on that axis times the
/// step, and changes nothing else.
pub proof fn law_integrate(
    sys: IntegrateSystem,
    entity: u128,
    out: Seq<InstructionView>,
    f: Functions,
    m: Machine,
)
    requires
        follows(out, sys.lowered(entity, out)),
    ensures
        ({
            let w = run(out, f, m).world;
            let after = run(sys.lowered(entity, out), f, m).world;
            let p = |axis: int| axis_of(entity, ComponentView::Transform, axis);
            let v = |axis: int| axis_of(entity, ComponentView::Velocity, axis);
            &&& forall|axis: int|
                0 <= axis < 3 ==> #[trigger] after[p(axis)] == w[p(axis)] + w[v(axis)] * number_of(
                    sys.dt,
                )
            &&& forall|at: ComponentRefView|
                at != p(0) && at != p(1) && at != p(2) ==> #[trigger] after[at] == w[at]
        }),
{
    broadcast use lemma_run_push;

    let out1 = drift(entity, POS_X, VEL_X, sys.dt, out);
    let out2 = drift(entity, POS_Y, VEL_Y, sys.dt, out1);
    let out3 = drift(entity, POS_Z, VEL_Z, sys.dt, out2);
    lemma_drift_len(entity, POS_X, VEL_X, sys.dt, out);
    lemma_drift_len(entity, POS_Y, VEL_Y, sys.dt, out1);
    lemma_drift_len(entity, POS_Z, VEL_Z, sys.dt, out2);
    lemma_drifted(entity, POS_X, VEL_X, sys.dt, out, f, m);
    lemma_drifted(entity, POS_Y, VEL_Y, sys.dt, out1, f, m);
    lemma_drifted(entity, POS_Z, VEL_Z, sys.dt, out2, f, m);
    let p = |axis: int| axis_of(entity, ComponentView::Transform, axis);
    assert(p(0) != p(1) && p(1) != p(2) && p(0) != p(2));
    let w = run(out, f, m).world;
    let v = |axis: int| axis_of(entity, ComponentView::Velocity, axis);
    let after = run(sys.lowered(entity, out), f, m).world;
    assert(after[p(0)] == w[p(0)] + w[v(0)] * number_of(sys.dt));
    assert(after[p(1)] == w[p(1)] + w[v(1)] * number_of(sys.dt));
    assert(after[p(2)] == w[p(2)] + w[v(2)] * number_of(sys.dt));
}

proof fn lemma_drift_len(
    entity: u128,
    pos: u32,
    vel: u32,
    dt: u64,
    out: Seq<InstructionView>,
)
    ensures
        drift(entity, pos, vel, dt, out).len() == out.len() + 6,
{
}

proof fn lemma_dragged(
    entity: u128,
    offset: u32,
    factor: u64,
    out: Seq<InstructionView>,
    f: Functions,
    m: Machine,
)
    requires
        tidy(resumed(out), 1),
        out.len() + 5 < u32::MAX,
    ensures
        ({
            let done = drag(entity, offset, factor, out);
            let v = ComponentRefView { entity, component: ComponentView::Velocity, offset };
            let w = run(out, f, m).world;
            &&& tidy(resumed(done), 1)
            &&& done.len() == out.len() + 4
            &&& run(done, f, m).world == w.insert(v, w[v] * number_of(factor))
        }),
{
    lemma_drag(entity, offset, factor, out);
    broadcast use group_follow;

    assert(followed(f, m));
    let s0 = resumed(out);
    let (s1, vel) = read_of(s0, entity, ComponentView::Velocity, offset);
    let (s2, k) = bits_of(s1, factor);
    let (s3, scaled) = op_of(s2, Opcode::Mul, seq![vel, k]);
    assert(held_by(s3, scaled, f, m) == held_by(s2, vel, f, m) * held_by(s2, k, f, m));
}

/// Damping multiplies the velocity on each axis by the factor, and changes nothing else.
pub proof fn law_damping(
    sys: DampingSystem,
    entity: u128,
    out: Seq<InstructionView>,
    f: Functions,
    m: Machine,
)
    requires
        follows(out, sys.lowered(entity, out)),
    ensures
        ({
            let w = run(out, f, m).world;
            let after = run(sys.lowered(entity, out), f, m).world;
            let v = |axis: int| axis_of(entity, ComponentView::Velocity, axis);
            &&& forall|axis: int|
                0 <= axis < 3 ==> #[trigger] after[v(axis)] == w[v(axis)] * number_of(sys.factor)
            &&& forall|at: ComponentRefView|
                at != v(0) && at != v(1) && at != v(2) ==> #[trigger] after[at] == w[at]
        }),
{
    broadcast use lemma_run_push;

    let out1 = drag(entity, VEL_X, sys.factor, out);
    let out2 = drag(entity, VEL_Y, sys.factor, out1);
    let out3 = drag(entity, VEL_Z, sys.factor, out2);
    assert(out3.len() == out.len() + 12);
    lemma_dragged(entity, VEL_X, sys.factor, out, f, m);
    lemma_dragged(entity, VEL_Y, sys.factor, out1, f, m);
    lemma_dragged(entity, VEL_Z, sys.factor, out2, f, m);
    let v = |axis: int| axis_of(entity, ComponentView::Velocity, axis);
    assert(v(0) != v(1) && v(1) != v(2) && v(0) != v(2));
    let w = run(out, f, m).world;
    let after = run(sys.lowered(entity, out), f, m).world;
    assert(after[v(0)] == w[v(0)] * number_of(sys.factor));
    assert(after[v(1)] == w[v(1)] * number_of(sys.factor));
    assert(after[v(2)] == w[v(2)] * number_of(sys.factor));
}

/// Ground contact: a body below the ground is lifted to it and its vertical velocity is
/// turned round, scaled by the restitution. A body on or above the ground stays as it is,
/// and so does all else.
#[verifier::rlimit(40)]
pub proof fn law_ground_contact(
    sys: GroundContactSystem,
    entity: u128,
    out: Seq<InstructionView>,
    f: Functions,
    m: Machine,
)
    requires
        follows(out, sys.lowered(entity, out)),
    ensures
        ({
            let w = run(out, f, m).world;
            let after = run(sys.lowered(entity, out), f, m).world;
            let y = axis_of(entity, ComponentView::Transform, 1);
            let vy = axis_of(entity, ComponentView::Velocity, 1);
            forall|at: ComponentRefView| #[trigger]
                after[at] == (if w[y] < 0 as real && at == y {
                    0 as real
                } else if w[y] < 0 as real && at == vy {
                    -(number_of(sys.restitution) * w[vy])
                } else {
                    w[at]
                })
        }),
{
    broadcast use {group_follow, lemma_run_push};

    lemma_numbers();
    assert(followed(f, m));
    let s0 = resumed(out);
    let (s1, pos) = read_of(s0, entity, ComponentView::Transform, POS_Y);
    let (s2, zero) = bits_of(s1, ZERO);
    let (s3, below) = test_of(s2, Opcode::Lt, seq![pos, zero]);
    let (s4, vel) = read_of(s3, entity, ComponentView::Velocity, VEL_Y);
    let (s5, neg) = const_of(s4, Real::Neg(sys.restitution));
    let (s6, bounced) = op_of(s5, Opcode::Mul, seq![neg, vel]);
    let (s7, new_vel) = op_of(s6, Opcode::Select, seq![below, bounced, vel]);
    let s8 = write_of(s7, entity, ComponentView::Velocity, VEL_Y, new_vel);
    let (s9, new_pos) = op_of(s8, Opcode::Select, seq![below, zero, pos]);
    let w = run(out, f, m).world;
    let y = axis_of(entity, ComponentView::Transform, 1);
    let vy = axis_of(entity, ComponentView::Velocity, 1);
    assert(held_by(s1, pos, f, m) == w[y]);
    assert(held_by(s2, zero, f, m) == 0 as real);
    assert(held_by(s3, below, f, m) == truth(w[y] < 0 as real));
    assert(held_by(s4, vel, f, m) == w[vy]);
    assert(held_by(s5, neg, f, m) == -number_of(sys.restitution));
    assert(held_by(s6, bounced, f, m) == -number_of(sys.restitution) * w[vy]);
    let r = number_of(sys.restitution);
    let v = w[vy];
    assert(-r * v == -(r * v)) by (nonlinear_arith);
    assert(held_by(s7, new_vel, f, m) == (if w[y] < 0 as real {
        -(r * v)
    } else {
        v
    }));
    assert(held_by(s9, new_pos, f, m) == (if w[y] < 0 as real {
        0 as real
    } else {
        w[y]
    }));
    assert(y != vy);
}

/// Where a pair of walls at `-limit` and `limit` keeps a coordinate.
pub open spec fn kept_within(x: real, limit: real) -> real {
    if x > limit {
        limit
    } else if x < -limit {
        -limit
    } else {
        x
    }
}

#[verifier::rlimit(80)]
proof fn lemma_walled(
    entity: u128,
    pos: u32,
    vel: u32,
    limit: u64,
    restitution: u64,
    s: Emit,
    f: Functions,
    m: Machine,
)
    requires
        tidy(s, 1),
        s.out.len() + 21 < u32::MAX,
    ensures
        ({
            let t = wall_pair(entity, pos, vel, limit, restitution, s);
            let p = ComponentRefView { entity, component: ComponentView::Transform, offset: pos };
            let v = ComponentRefView { entity, component: ComponentView::Velocity, offset: vel };
            let w = run(s.out, f, m).world;
            let kept = kept_within(w[p], number_of(limit));
            &&& tidy(t, 1)
            &&& t.out.len() == s.out.len() + 20
            &&& run(t.out, f, m).world == w.insert(p, kept).insert(
                v,
                if kept == w[p] {
                    w[v]
                } else {
                    -(number_of(restitution) * w[v])
                },
            )
        }),
{
    broadcast use group_follow;

    lemma_numbers();
    assert(followed(f, m));
    let (s1, p) = read_of(s, entity, ComponentView::Transform, pos);
    let (s2, v) = read_of(s1, entity, ComponentView::Velocity, vel);
    let (s3, lo) = const_of(s2, Real::Neg(limit));
    let (s4, hi) = bits_of(s3, limit);
    let (s5, hit_r) = test_of(s4, Opcode::Gt, seq![p, hi]);
    let (s6, hit_l) = test_of(s5, Opcode::Lt, seq![p, lo]);
    let (s7, one) = bits_of(s6, ONE);
    let (s8, zero) = bits_of(s7, ZERO);
    let (s9, hr) = op_of(s8, Opcode::Select, seq![hit_r, one, zero]);
    let (s10, hl) = op_of(s9, Opcode::Select, seq![hit_l, one, zero]);
    let (s11, any) = op_of(s10, Opcode::Add, seq![hr, hl]);
    let (s12, half) = bits_of(s11, HALF);
    let (s13, hit) = test_of(s12, Opcode::Gt, seq![any, half]);
    let (s14, neg) = const_of(s13, Real::Neg(restitution));
    let (s15, reflected) = op_of(s14, Opcode::Mul, seq![v, neg]);
    let (s16, new_v) = op_of(s15, Opcode::Select, seq![hit, reflected, v]);
    let (s17, inner) = op_of(s16, Opcode::Select, seq![hit_l, lo, p]);
    let (s18, new_p) = op_of(s17, Opcode::Select, seq![hit_r, hi, inner]);
    let w = run(s.out, f, m).world;
    let pv = w[ComponentRefView { entity, component: ComponentView::Transform, offset: pos }];
    let vv = w[ComponentRefView { entity, component: ComponentView::Velocity, offset: vel }];
    let l = number_of(limit);
    let r = number_of(restitution);
    assert(held_by(s1, p, f, m) == pv);
    assert(held_by(s2, v, f, m) == vv);
    assert(held_by(s3, lo, f, m) == -l);
    assert(held_by(s4, hi, f, m) == l);
    assert(held_by(s5, hit_r, f, m) == truth(pv > l));
    assert(held_by(s6, hit_l, f, m) == truth(pv < -l));
    assert(held_by(s7, one, f, m) == 1 as real);
    assert(held_by(s8, zero, f, m) == 0 as real);
    assert(held_by(s9, hr, f, m) == truth(pv > l));
    assert(held_by(s10, hl, f, m) == truth(pv < -l));
    assert(held_by(s11, any, f, m) == truth(pv > l) + truth(pv < -l));
    assert(held_by(s12, half, f, m) == 1 as real / 2 as real);
    assert(held_by(s13, hit, f, m) == truth(pv > l || pv < -l));
    assert(held_by(s14, neg, f, m) == -r);
    assert(held_by(s15, reflected, f, m) == vv * -r);
    assert(vv * -r == -(r * vv)) by (nonlinear_arith);
    assert(held_by(s16, new_v, f, m) == (if pv > l || pv < -l {
        -(r * vv)
    } else {
        vv
    }));
    assert(held_by(s17, inner, f, m) == (if pv < -l {
        -l
    } else {
        pv
    }));
    assert(held_by(s18, new_p, f, m) == kept_within(pv, l));
    lemma_wall_pair(entity, pos, vel, limit, restitution, s);
}

#[verifier::rlimit(40)]
proof fn lemma_floored(
    entity: u128,
    y_min: u64,
    restitution: u64,
    s: Emit,
    f: Functions,
    m: Machine,
)
    requires
        tidy(s, 1),
        s.out.len() + 11 < u32::MAX,
    ensures
        ({
            let t = wall_floor(entity, y_min, restitution, s);
            let p = axis_of(entity, ComponentView::Transform, 1);
            let v = axis_of(entity, ComponentView::Velocity, 1);
            let w = run(s.out, f, m).world;
            let hit = w[p] < number_of(y_min);
            &&& t.out.len() == s.out.len() + 10
            &&& run(t.out, f, m).world == w.insert(
                p,
                if hit {
                    number_of(y_min)
                } else {
                    w[p]
                },
            ).insert(
                v,
                if hit {
                    -(number_of(restitution) * w[v])
                } else {
                    w[v]
                },
            )
        }),
{
    broadcast use group_follow;

    assert(followed(f, m));
    let (s1, p) = read_of(s, entity, ComponentView::Transform, POS_Y);
    let (s2, v) = read_of(s1, entity, ComponentView::Velocity, VEL_Y);
    let (s3, lo) = bits_of(s2, y_min);
    let (s4, hit) = test_of(s3, Opcode::Lt, seq![p, lo]);
    let (s5, neg) = const_of(s4, Real::Neg(restitution));
    let (s6, reflected) = op_of(s5, Opcode::Mul, seq![v, neg]);
    let (s7, new_v) = op_of(s6, Opcode::Select, seq![hit, reflected, v]);
    let (s8, new_p) = op_of(s7, Opcode::Select, seq![hit, lo, p]);
    let w = run(s.out, f, m).world;
    let pv = w[axis_of(entity, ComponentView::Transform, 1)];
    let vv = w[axis_of(entity, ComponentView::Velocity, 1)];
    let l = number_of(y_min);
    let r = number_of(restitution);
    assert(held_by(s1, p, f, m) == pv);
    assert(held_by(s2, v, f, m) == vv);
    assert(held_by(s3, lo, f, m) == l);
    assert(held_by(s4, hit, f, m) == truth(pv < l));
    assert(held_by(s5, neg, f, m) == -r);
    assert(held_by(s6, reflected, f, m) == vv * -r);
    assert(vv * -r == -(r * vv)) by (nonlinear_arith);
    assert(held_by(s7, new_v, f, m) == (if pv < l {
        -(r * vv)
    } else {
        vv
    }));
    assert(held_by(s8, new_p, f, m) == (if pv < l {
        l
    } else {
        pv
    }));
}

/// Walls keep a body within their limits on the x and z axes, and above the floor where
/// that is finite. On an axis where the body was beyond, it is moved to the wall and its
/// velocity is turned round, scaled by the restitution. Nothing else changes.
pub proof fn law_wall(
    sys: WallSystem,
    entity: u128,
    out: Seq<InstructionView>,
    f: Functions,
    m: Machine,
)
    requires
        follows(out, sys.lowered(entity, out)),
    ensures
        ({
            let w = run(out, f, m).world;
            let after = run(sys.lowered(entity, out), f, m).world;
            let p = |axis: int| axis_of(entity, ComponentView::Transform, axis);
            let v = |axis: int| axis_of(entity, ComponentView::Velocity, axis);
            let floor = is_finite(sys.y_min) && w[p(1)] < number_of(sys.y_min);
            &&& after[p(0)] == kept_within(w[p(0)], number_of(sys.x))
            &&& after[p(2)] == kept_within(w[p(2)], number_of(sys.z))
            &&& after[p(1)] == (if floor {
                number_of(sys.y_min)
            } else {
                w[p(1)]
            })
            &&& forall|axis: int|
                0 <= axis < 3 ==> #[trigger] after[v(axis)] == (if after[p(axis)] == w[p(axis)] {
                    w[v(axis)]
                } else {
                    -(number_of(sys.restitution) * w[v(axis)])
                })
            &&& forall|at: ComponentRefView|
                at != p(0) && at != p(1) && at != p(2) && at != v(0) && at != v(1) && at != v(2)
                    ==> #[trigger] after[at] == w[at]
        }),
{
    let s0 = resumed(out);
    let s1 = wall_pair(entity, POS_X, VEL_X, sys.x, sys.restitution, s0);
    let s2 = wall_pair(entity, POS_Z, VEL_Z, sys.z, sys.restitution, s1);
    let s3 = if is_finite(sys.y_min) {
        wall_floor(entity, sys.y_min, sys.restitution, s2)
    } else {
        s2
    };
    lemma_walls_len(sys, entity, out);
    lemma_walled(entity, POS_X, VEL_X, sys.x, sys.restitution, s0, f, m);
    lemma_walled(entity, POS_Z, VEL_Z, sys.z, sys.restitution, s1, f, m);
    if is_finite(sys.y_min) {
        lemma_floored(entity, sys.y_min, sys.restitution, s2, f, m);
    }
    let w = run(out, f, m).world;
    let after = run(sys.lowered(entity, out), f, m).world;
    let p = |axis: int| axis_of(entity, ComponentView::Transform, axis);
    let v = |axis: int| axis_of(entity, ComponentView::Velocity, axis);
    assert(p(0) != p(1) && p(1) != p(2) && p(0) != p(2));
    assert(v(0) != v(1) && v(1) != v(2) && v(0) != v(2));
    lemma_run_push(s3.out, effect_view(Opcode::Return, Seq::empty(), None), f, m);
    assert(run(s3.out, f, m).world == after);
    let turned = |axis: int|
        after[v(axis)] == (if after[p(axis)] == w[p(axis)] {
            w[v(axis)]
        } else {
            -(number_of(sys.restitution) * w[v(axis)])
        });
    assert(turned(0));
    assert(turned(1));
    assert(turned(2));
}

proof fn lemma_walls_len(sys: WallSystem, entity: u128, out: Seq<InstructionView>)
    ensures
        sys.lowered(entity, out).len() >= out.len() + 41,
        is_finite(sys.y_min) ==> sys.lowered(entity, out).len() >= out.len() + 51,
{
}

/// Values on three axes.
pub type Vector = (real, real, real);

/// How far another body is on an axis.
pub open spec fn gap(w: Fields, i: u128, j: u128, axis: int) -> real {
    w[slot_of(j, axis)] - w[slot_of(i, axis)]
}

/// The softened square of the distance between two bodies.
pub open spec fn distance_squared(w: Fields, i: u128, j: u128) -> real {
    gap(w, i, j, 0) * gap(w, i, j, 0) + gap(w, i, j, 1) * gap(w, i, j, 1) + gap(w, i, j, 2) * gap(
        w,
        i,
        j,
        2,
    ) + number_of(0x3D71_9799_812D_EA11)
}

/// The acceleration of body `i` by body `j` on an axis: `g * m_j * d / |d|^3`.
pub open spec fn attraction(
    f: Functions,
    w: Fields,
    g: real,
    i: u128,
    j: u128,
    axis: int,
) -> real {
    let d2 = distance_squared(w, i, j);
    g * w[slot_of(j, 6)] / (d2 * (f.root)(d2)) * gap(w, i, j, axis)
}

/// The acceleration of body `i` by the first `n` bodies of a list; it does not attract
/// itself.
pub open spec fn total_attraction(
    f: Functions,
    w: Fields,
    g: real,
    i: u128,
    bodies: Seq<u128>,
    n: nat,
    axis: int,
) -> real
    decreases n,
{
    if n == 0 || n > bodies.len() {
        0 as real
    } else {
        let before = total_attraction(f, w, g, i, bodies, (n - 1) as nat, axis);
        if bodies[n - 1] == i {
            before
        } else {
            before + attraction(f, w, g, i, bodies[n - 1], axis)
        }
    }
}

/// Whether three registers hold three values.
pub open spec fn holds(s: Emit, t: Triple, f: Functions, m: Machine, v: Vector) -> bool {
    &&& held_by(s, t.0, f, m) == v.0
    &&& held_by(s, t.1, f, m) == v.1
    &&& held_by(s, t.2, f, m) == v.2
}

/// Three consecutive state slots.
pub open spec fn vector_at(w: Fields, entity: u128, slot: int) -> Vector {
    (w[slot_of(entity, slot)], w[slot_of(entity, slot + 1)], w[slot_of(entity, slot + 2)])
}

#[verifier::rlimit(100)]
proof fn lemma_pulled(j: u128, entity: u128, p: Triple, g: u64, s: Emit, f: Functions, m: Machine)
    requires
        tidy(s, 1),
        has_triple(s, p),
        s.out.len() + 23 < u32::MAX,
        holds(s, p, f, m, vector_at(run(s.out, f, m).world, entity, 0)),
    ensures
        ({
            let (t, a) = pull(j, p, g, s);
            let w = run(s.out, f, m).world;
            &&& tidy(t, 1)
            &&& has_triple(t, a)
            &&& after(s, t, 1)
            &&& t.out.len() == s.out.len() + 22
            &&& run(t.out, f, m).world == w
            &&& holds(
                t,
                a,
                f,
                m,
                (
                    attraction(f, w, number_of(g), entity, j, 0),
                    attraction(f, w, number_of(g), entity, j, 1),
                    attraction(f, w, number_of(g), entity, j, 2),
                ),
            )
        }),
{
    broadcast use group_follow;

    assert(followed(f, m));
    lemma_pull(j, p, g, s);
    let w = run(s.out, f, m).world;
    let (s1, jx) = nb_read_of(s, j, 0);
    let (s2, jy) = nb_read_of(s1, j, 1);
    let (s3, jz) = nb_read_of(s2, j, 2);
    let (s4, jm) = nb_read_of(s3, j, 6);
    assert(held_by(s1, jx, f, m) == w[slot_of(j, 0)]);
    assert(held_by(s2, jy, f, m) == w[slot_of(j, 1)]);
    assert(held_by(s3, jz, f, m) == w[slot_of(j, 2)]);
    assert(held_by(s4, jm, f, m) == w[slot_of(j, 6)]);
    let (s5, dx) = op_of(s4, Opcode::Sub, seq![jx, p.0]);
    assert(held_by(s5, dx, f, m) == gap(w, entity, j, 0));
    let (s6, dy) = op_of(s5, Opcode::Sub, seq![jy, p.1]);
    assert(held_by(s6, dy, f, m) == gap(w, entity, j, 1));
    let (s7, dz) = op_of(s6, Opcode::Sub, seq![jz, p.2]);
    assert(held_by(s7, dz, f, m) == gap(w, entity, j, 2));
    let (s8, dx2) = op_of(s7, Opcode::Mul, seq![dx, dx]);
    assert(held_by(s8, dx2, f, m) == gap(w, entity, j, 0) * gap(w, entity, j, 0));
    let (s9, dy2) = op_of(s8, Opcode::Mul, seq![dy, dy]);
    assert(held_by(s9, dy2, f, m) == gap(w, entity, j, 1) * gap(w, entity, j, 1));
    let (s10, dz2) = op_of(s9, Opcode::Mul, seq![dz, dz]);
    assert(held_by(s10, dz2, f, m) == gap(w, entity, j, 2) * gap(w, entity, j, 2));
    let (s11, sxy) = op_of(s10, Opcode::Add, seq![dx2, dy2]);
    let (s12, r2) = op_of(s11, Opcode::Add, seq![sxy, dz2]);
    let (s13, eps) = bits_of(s12, SOFTENING);
    let (s14, soft) = op_of(s13, Opcode::Add, seq![r2, eps]);
    let d2 = distance_squared(w, entity, j);
    assert(held_by(s14, soft, f, m) == d2);
    let (s15, r) = op_of(s14, Opcode::Sqrt, seq![soft]);
    assert(held_by(s15, r, f, m) == (f.root)(d2));
    let (s16, r3) = op_of(s15, Opcode::Mul, seq![soft, r]);
    assert(held_by(s16, r3, f, m) == d2 * (f.root)(d2));
    let (s17, gc) = bits_of(s16, g);
    let (s18, gm) = op_of(s17, Opcode::Mul, seq![gc, jm]);
    assert(held_by(s18, gm, f, m) == number_of(g) * w[slot_of(j, 6)]);
    let (s19, scale) = op_of(s18, Opcode::Div, seq![gm, r3]);
    let k = number_of(g) * w[slot_of(j, 6)] / (d2 * (f.root)(d2));
    assert(held_by(s19, scale, f, m) == k);
    let (s20, tx) = op_of(s19, Opcode::Mul, seq![scale, dx]);
    assert(held_by(s20, tx, f, m) == k * gap(w, entity, j, 0));
    let (s21, ty) = op_of(s20, Opcode::Mul, seq![scale, dy]);
    assert(held_by(s21, ty, f, m) == k * gap(w, entity, j, 1));
    let (s22, tz) = op_of(s21, Opcode::Mul, seq![scale, dz]);
    assert(held_by(s22, tz, f, m) == k * gap(w, entity, j, 2));
}

#[verifier::rlimit(100)]
proof fn lemma_all_pulled(
    bodies: Seq<u128>,
    n: nat,
    entity: u128,
    p: Triple,
    g: u64,
    a: Triple,
    s: Emit,
    f: Functions,
    m: Machine,
)
    requires
        n <= bodies.len(),
        tidy(s, 1),
        has_triple(s, p),
        has_triple(s, a),
        1 + pulls(bodies, n, entity, p, g, a, s).0.out.len() < u32::MAX,
        holds(s, p, f, m, vector_at(run(s.out, f, m).world, entity, 0)),
        holds(s, a, f, m, (0 as real, 0 as real, 0 as real)),
    ensures
        ({
            let (t, b) = pulls(bodies, n, entity, p, g, a, s);
            let w = run(s.out, f, m).world;
            &&& tidy(t, 1)
            &&& has_triple(t, b)
            &&& after(s, t, 1)
            &&& run(t.out, f, m).world == w
            &&& holds(
                t,
                b,
                f,
                m,
                (
                    total_attraction(f, w, number_of(g), entity, bodies, n, 0),
                    total_attraction(f, w, number_of(g), entity, bodies, n, 1),
                    total_attraction(f, w, number_of(g), entity, bodies, n, 2),
                ),
            )
        }),
    decreases n,
{
    if n > 0 {
        let w = run(s.out, f, m).world;
        let (s1, b) = pulls(bodies, (n - 1) as nat, entity, p, g, a, s);
        let (t, all) = pulls(bodies, n, entity, p, g, a, s);
        lemma_pulls_len(bodies, n, entity, p, g, a, s);
        lemma_all_pulled(bodies, (n - 1) as nat, entity, p, g, a, s, f, m);
        if bodies[n - 1] != entity {
            lemma_registers_stay(s, s1, f, m);
            assert(holds(s1, p, f, m, vector_at(w, entity, 0))) by {
                assert(held_by(s1, p.0, f, m) == held_by(s, p.0, f, m));
                assert(held_by(s1, p.1, f, m) == held_by(s, p.1, f, m));
                assert(held_by(s1, p.2, f, m) == held_by(s, p.2, f, m));
            }
            lemma_pulled(bodies[n - 1], entity, p, g, s1, f, m);
            let (s2, c) = pull(bodies[n - 1], p, g, s1);
            lemma_registers_stay(s1, s2, f, m);
            assert(held_by(s2, b.0, f, m) == held_by(s1, b.0, f, m));
            assert(held_by(s2, b.1, f, m) == held_by(s1, b.1, f, m));
            assert(held_by(s2, b.2, f, m) == held_by(s1, b.2, f, m));
            lemma_added(b, c, s2, f, m);
        }
    }
}

proof fn lemma_pulls_len(
    bodies: Seq<u128>,
    n: nat,
    entity: u128,
    p: Triple,
    g: u64,
    a: Triple,
    s: Emit,
)
    requires
        0 < n <= bodies.len(),
    ensures
        ({
            let before = pulls(bodies, (n - 1) as nat, entity, p, g, a, s).0.out.len();
            let now = pulls(bodies, n, entity, p, g, a, s).0.out.len();
            now == before + if bodies[n - 1] == entity {
                0int
            } else {
                25
            }
        }),
{
}

proof fn lemma_added(a: Triple, b: Triple, s: Emit, f: Functions, m: Machine)
    requires
        tidy(s, 1),
        has_triple(s, a),
        has_triple(s, b),
        s.out.len() + 4 < u32::MAX,
    ensures
        ({
            let (s1, x) = op_of(s, Opcode::Add, seq![a.0, b.0]);
            let (s2, y) = op_of(s1, Opcode::Add, seq![a.1, b.1]);
            let (s3, z) = op_of(s2, Opcode::Add, seq![a.2, b.2]);
            &&& tidy(s3, 1)
            &&& has_triple(s3, (x, y, z))
            &&& after(s, s3, 1)
            &&& run(s3.out, f, m).world == run(s.out, f, m).world
            &&& held_by(s3, x, f, m) == held_by(s, a.0, f, m) + held_by(s, b.0, f, m)
            &&& held_by(s3, y, f, m) == held_by(s, a.1, f, m) + held_by(s, b.1, f, m)
            &&& held_by(s3, z, f, m) == held_by(s, a.2, f, m) + held_by(s, b.2, f, m)
        }),
{
    broadcast use group_follow;

    assert(followed(f, m));
    lemma_summed(a, b, s);
}

proof fn lemma_advanced(b: Triple, d: Triple, dt: u64, s: Emit, f: Functions, m: Machine)
    requires
        tidy(s, 1),
        has_triple(s, b),
        has_triple(s, d),
        s.out.len() + 8 < u32::MAX,
    ensures
        ({
            let (t, n) = advance(b, d, dt, s);
            let h = number_of(dt);
            &&& tidy(t, 1)
            &&& has_triple(t, n)
            &&& after(s, t, 1)
            &&& t.out.len() == s.out.len() + 7
            &&& run(t.out, f, m).world == run(s.out, f, m).world
            &&& held_by(t, n.0, f, m) == held_by(s, b.0, f, m) + held_by(s, d.0, f, m) * h
            &&& held_by(t, n.1, f, m) == held_by(s, b.1, f, m) + held_by(s, d.1, f, m) * h
            &&& held_by(t, n.2, f, m) == held_by(s, b.2, f, m) + held_by(s, d.2, f, m) * h
        }),
{
    broadcast use group_follow;

    assert(followed(f, m));
    lemma_advance(b, d, dt, s);
}

proof fn lemma_triple_read(entity: u128, slot: usize, s: Emit, f: Functions, m: Machine)
    requires
        tidy(s, 1),
        slot < 8,
        s.out.len() + 4 < u32::MAX,
    ensures
        ({
            let (t, n) = triple_of(entity, slot, s);
            let w = run(s.out, f, m).world;
            &&& tidy(t, 1)
            &&& has_triple(t, n)
            &&& after(s, t, 1)
            &&& t.out.len() == s.out.len() + 3
            &&& run(t.out, f, m).world == w
            &&& holds(t, n, f, m, vector_at(w, entity, slot as int))
        }),
{
    broadcast use group_follow;

    assert(followed(f, m));
    lemma_triple(entity, slot, s);
    let (s1, x) = nb_read_of(s, entity, slot);
    let (s2, y) = nb_read_of(s1, entity, (slot + 1) as usize);
    let (s3, z) = nb_read_of(s2, entity, (slot + 2) as usize);
    assert(slot_offset(slot) == (8 * slot) as u32);
    assert(slot_offset((slot + 1) as usize) == (8 * (slot + 1)) as u32);
    assert(slot_offset((slot + 2) as usize) == (8 * (slot + 2)) as u32);
    assert(held_by(s3, x, f, m) == held_by(s2, x, f, m));
}

proof fn lemma_triple_written(
    entity: u128,
    slot: usize,
    v: Triple,
    s: Emit,
    f: Functions,
    m: Machine,
)
    requires
        tidy(s, 1),
        has_triple(s, v),
        slot < 8,
        s.out.len() + 4 < u32::MAX,
    ensures
        ({
            let t = triple_write(entity, slot, v, s);
            &&& tidy(t, 1)
            &&& after(s, t, 1)
            &&& t.next == s.next
            &&& t.out.len() == s.out.len() + 3
            &&& run(t.out, f, m).regs == run(s.out, f, m).regs
            &&& run(t.out, f, m).world == run(s.out, f, m).world.insert(
                slot_of(entity, slot as int),
                held_by(s, v.0, f, m),
            ).insert(slot_of(entity, slot + 1), held_by(s, v.1, f, m)).insert(
                slot_of(entity, slot + 2),
                held_by(s, v.2, f, m),
            )
        }),
{
    broadcast use group_follow;

    assert(followed(f, m));
    lemma_triple_write(entity, slot, v, s);
    assert(slot_offset(slot) == (8 * slot) as u32);
    assert(slot_offset((slot + 1) as usize) == (8 * (slot + 1)) as u32);
    assert(slot_offset((slot + 2) as usize) == (8 * (slot + 2)) as u32);
}

/// Mutual attraction: the velocity of a body grows on each of the three axes by the sum of
/// the pulls of the other bodies, times the step; it then moves with the new velocity, and
/// nothing else changes. An entity that is none of the bodies is left alone.
#[verifier::rlimit(100)]
pub proof fn law_nbody(
    sys: NbodySystem,
    entity: u128,
    out: Seq<InstructionView>,
    f: Functions,
    m: Machine,
)
    requires
        follows(out, sys.lowered(entity, out)),
    ensures
        ({
            let w = run(out, f, m).world;
            let after = run(sys.lowered(entity, out), f, m).world;
            let g = number_of(sys.g);
            let h = number_of(sys.dt);
            let p = |axis: int| slot_of(entity, axis);
            let v = |axis: int| slot_of(entity, 3 + axis);
            let body = sys.bodies@.contains(entity);
            &&& body ==> forall|axis: int|
                0 <= axis < 3 ==> #[trigger] after[v(axis)] == w[v(axis)] + total_attraction(
                    f,
                    w,
                    g,
                    entity,
                    sys.bodies@,
                    sys.bodies@.len(),
                    axis,
                ) * h
            &&& body ==> forall|axis: int|
                0 <= axis < 3 ==> #[trigger] after[p(axis)] == w[p(axis)] + after[v(axis)] * h
            &&& forall|at: ComponentRefView|
                !body || (forall|slot: int| 0 <= slot < 6 ==> at != #[trigger] slot_of(entity, slot))
                    ==> #[trigger] after[at] == w[at]
        }),
{
    let last = effect_view(Opcode::Return, Seq::empty(), None);
    if !sys.bodies@.contains(entity) {
        lemma_run_push(out, last, f, m);
    } else {
        let bodies = sys.bodies@;
        let s0 = resumed(out);
        let w = run(out, f, m).world;
        let (s1, p) = triple_of(entity, 0, s0);
        let (s2, v) = triple_of(entity, 3, s1);
        let (s3, ax) = bits_of(s2, ZERO);
        let (s4, ay) = bits_of(s3, ZERO);
        let (s5, az) = bits_of(s4, ZERO);
        let (s6, a) = pulls(bodies, bodies.len(), entity, p, sys.g, (ax, ay, az), s5);
        let (s7, nv) = advance(v, a, sys.dt, s6);
        let (s8, np) = advance(p, nv, sys.dt, s7);
        let s9 = triple_write(entity, 3, nv, s8);
        let s10 = triple_write(entity, 0, np, s9);
        lemma_nbody_len(sys, entity, out);
        lemma_triple_read(entity, 0, s0, f, m);
        lemma_triple_read(entity, 3, s1, f, m);
        assert(tidy(s5, 1) && has_triple(s5, (ax, ay, az)) && after(s2, s5, 1) && run(
            s5.out,
            f,
            m,
        ).world == w && holds(
            s5,
            (ax, ay, az),
            f,
            m,
            (0 as real, 0 as real, 0 as real),
        )) by {
            broadcast use group_follow;

            assert(followed(f, m));
            lemma_numbers();
        }
        lemma_registers_stay(s1, s5, f, m);
        lemma_registers_stay(s2, s5, f, m);
        assert(holds(s5, p, f, m, vector_at(w, entity, 0))) by {
            assert(held_by(s5, p.0, f, m) == held_by(s1, p.0, f, m));
            assert(held_by(s5, p.1, f, m) == held_by(s1, p.1, f, m));
            assert(held_by(s5, p.2, f, m) == held_by(s1, p.2, f, m));
        }
        lemma_all_pulled(bodies, bodies.len(), entity, p, sys.g, (ax, ay, az), s5, f, m);
        lemma_registers_stay(s2, s6, f, m);
        lemma_registers_stay(s5, s6, f, m);
        lemma_advanced(v, a, sys.dt, s6, f, m);
        lemma_registers_stay(s6, s7, f, m);
        lemma_advanced(p, nv, sys.dt, s7, f, m);
        lemma_registers_stay(s7, s8, f, m);
        lemma_triple_written(entity, 3, nv, s8, f, m);
        lemma_triple_written(entity, 0, np, s9, f, m);
        lemma_run_push(s10.out, last, f, m);
        assert(held_by(s6, v.0, f, m) == held_by(s2, v.0, f, m));
        assert(held_by(s6, v.1, f, m) == held_by(s2, v.1, f, m));
        assert(held_by(s6, v.2, f, m) == held_by(s2, v.2, f, m));
        assert(held_by(s7, p.0, f, m) == held_by(s6, p.0, f, m) == held_by(s5, p.0, f, m));
        assert(held_by(s7, p.1, f, m) == held_by(s6, p.1, f, m) == held_by(s5, p.1, f, m));
        assert(held_by(s7, p.2, f, m) == held_by(s6, p.2, f, m) == held_by(s5, p.2, f, m));
        assert(held_by(s8, nv.0, f, m) == held_by(s7, nv.0, f, m));
        assert(held_by(s8, nv.1, f, m) == held_by(s7, nv.1, f, m));
        assert(held_by(s8, nv.2, f, m) == held_by(s7, nv.2, f, m));
        lemma_slots_differ(entity);
        let after = run(sys.lowered(entity, out), f, m).world;
        assert(sys.lowered(entity, out) =~= s10.out.push(last));
        let sum = |axis: int|
            total_attraction(f, w, number_of(sys.g), entity, bodies, bodies.len(), axis);
        let h = number_of(sys.dt);
        assert(after[slot_of(entity, 3)] == w[slot_of(entity, 3)] + sum(0) * h);
        assert(after[slot_of(entity, 4)] == w[slot_of(entity, 4)] + sum(1) * h);
        assert(after[slot_of(entity, 5)] == w[slot_of(entity, 5)] + sum(2) * h);
        assert(after[slot_of(entity, 0)] == w[slot_of(entity, 0)] + after[slot_of(entity, 3)] * h);
        assert(after[slot_of(entity, 1)] == w[slot_of(entity, 1)] + after[slot_of(entity, 4)] * h);
        assert(after[slot_of(entity, 2)] == w[slot_of(entity, 2)] + after[slot_of(entity, 5)] * h);
    }
}

proof fn lemma_slots_differ(entity: u128)
    ensures
        forall|i: int, j: int|
            0 <= i < j < 8 ==> #[trigger] slot_of(entity, i) != #[trigger] slot_of(entity, j),
{
    assert forall|i: int, j: int| 0 <= i < j < 8 implies #[trigger] slot_of(entity, i)
        != #[trigger] slot_of(entity, j) by {
        assert(slot_of(entity, i).offset == 8 * i);
        assert(slot_of(entity, j).offset == 8 * j);
    }
}

proof fn lemma_nbody_len(sys: NbodySystem, entity: u128, out: Seq<InstructionView>)
    requires
        sys.bodies@.contains(entity),
    ensures
        ({
            let (s1, p) = triple_of(entity, 0, resumed(out));
            let (s2, v) = triple_of(entity, 3, s1);
            let (s3, ax) = bits_of(s2, ZERO);
            let (s4, ay) = bits_of(s3, ZERO);
            let (s5, az) = bits_of(s4, ZERO);
            let (s6, a) = pulls(
                sys.bodies@,
                sys.bodies@.len(),
                entity,
                p,
                sys.g,
                (ax, ay, az),
                s5,
            );
            &&& s5.out.len() == out.len() + 9
            &&& s5.out.len() <= s6.out.len()
            &&& sys.lowered(entity, out).len() == s6.out.len() + 21
        }),
{
    let (s1, p) = triple_of(entity, 0, resumed(out));
    let (s2, v) = triple_of(entity, 3, s1);
    let (s3, ax) = bits_of(s2, ZERO);
    let (s4, ay) = bits_of(s3, ZERO);
    let (s5, az) = bits_of(s4, ZERO);
    lemma_pulls_grow(sys.bodies@, sys.bodies@.len(), entity, p, sys.g, (ax, ay, az), s5);
}

proof fn lemma_pulls_grow(
    bodies: Seq<u128>,
    n: nat,
    entity: u128,
    p: Triple,
    g: u64,
    a: Triple,
    s: Emit,
)
    requires
        n <= bodies.len(),
    ensures
        s.out.len() <= pulls(bodies, n, entity, p, g, a, s).0.out.len(),
    decreases n,
{
    if n > 0 {
        lemma_pulls_grow(bodies, (n - 1) as nat, entity, p, g, a, s);
        lemma_pulls_len(bodies, n, entity, p, g, a, s);
    }
}

proof fn lemma_distance_positive(w: Fields, i: u128, j: u128)
    ensures
        distance_squared(w, i, j) > 0 as real,
{
    lemma_positive(92);
    let t = two_to(92);
    let digits = 0x11_9799_812D_EA11int as real;
    assert(digits / t > 0 as real) by (nonlinear_arith)
        requires
            t > 0 as real,
            digits > 0 as real,
    ;
    assert(number_of(0x3D71_9799_812D_EA11) == digits / t);
    let x = gap(w, i, j, 0);
    let y = gap(w, i, j, 1);
    let z = gap(w, i, j, 2);
    assert(x * x >= 0 as real) by (nonlinear_arith);
    assert(y * y >= 0 as real) by (nonlinear_arith);
    assert(z * z >= 0 as real) by (nonlinear_arith);
}

/// Bodies with mass attract one another where the constant is positive: on every axis on
/// which they are apart, the pull points towards the other body.
pub proof fn law_pull_attracts(f: Functions, w: Fields, g: real, i: u128, j: u128, axis: int)
    requires
        g > 0 as real,
        w[slot_of(j, 6)] > 0 as real,
        forall|x: real| x > 0 as real ==> #[trigger] (f.root)(x) > 0 as real,
    ensures
        gap(w, i, j, axis) > 0 as real ==> attraction(f, w, g, i, j, axis) > 0 as real,
        gap(w, i, j, axis) < 0 as real ==> attraction(f, w, g, i, j, axis) < 0 as real,
        gap(w, i, j, axis) == 0 as real ==> attraction(f, w, g, i, j, axis) == 0 as real,
{
    lemma_distance_positive(w, i, j);
    let d2 = distance_squared(w, i, j);
    let r = (f.root)(d2);
    let mass = w[slot_of(j, 6)];
    let x = gap(w, i, j, axis);
    let cube = d2 * r;
    assert(cube > 0 as real) by (nonlinear_arith)
        requires
            cube == d2 * r,
            d2 > 0 as real,
            r > 0 as real,
    ;
    let top = g * mass;
    assert(top > 0 as real) by (nonlinear_arith)
        requires
            top == g * mass,
            g > 0 as real,
            mass > 0 as real,
    ;
    let k = top / cube;
    assert(k > 0 as real) by (nonlinear_arith)
        requires
            k == top / cube,
            top > 0 as real,
            cube > 0 as real,
    ;
    assert(x > 0 as real ==> k * x > 0 as real) by (nonlinear_arith)
        requires
            k > 0 as real,
    ;
    assert(x < 0 as real ==> k * x < 0 as real) by (nonlinear_arith)
        requires
            k > 0 as real,
    ;
    assert(x == 0 as real ==> k * x == 0 as real) by (nonlinear_arith);
}

/// No axis is special: where two worlds hold two bodies with the axes exchanged, the pulls
/// are exchanged alike.
pub proof fn law_pull_has_no_special_axis(
    f: Functions,
    w: Fields,
    x: Fields,
    g: real,
    i: u128,
    j: u128,
    first: int,
    second: int,
    third: int,
)
    requires
        0 <= first < 3,
        0 <= second < 3,
        0 <= third < 3,
        first != second,
        second != third,
        first != third,
        gap(x, i, j, 0) == gap(w, i, j, first),
        gap(x, i, j, 1) == gap(w, i, j, second),
        gap(x, i, j, 2) == gap(w, i, j, third),
        x[slot_of(j, 6)] == w[slot_of(j, 6)],
    ensures
        attraction(f, x, g, i, j, 0) == attraction(f, w, g, i, j, first),
        attraction(f, x, g, i, j, 1) == attraction(f, w, g, i, j, second),
        attraction(f, x, g, i, j, 2) == attraction(f, w, g, i, j, third),
{
    assert(distance_squared(x, i, j) == distance_squared(w, i, j));
}

/// Action and reaction: weighted with the masses, the pulls of two bodies on one another
/// are opposite.
pub proof fn law_pulls_are_opposite(f: Functions, w: Fields, g: real, i: u128, j: u128, axis: int)
    requires
        (f.root)(distance_squared(w, i, j)) > 0 as real,
    ensures
        w[slot_of(i, 6)] * attraction(f, w, g, i, j, axis) == -(w[slot_of(j, 6)] * attraction(
            f,
            w,
            g,
            j,
            i,
            axis,
        )),
{
    lemma_distance_positive(w, i, j);
    let d2 = distance_squared(w, i, j);
    let x = gap(w, i, j, axis);
    let a = w[slot_of(i, 6)];
    let b = w[slot_of(j, 6)];
    lemma_square(gap(w, i, j, 0), gap(w, j, i, 0));
    lemma_square(gap(w, i, j, 1), gap(w, j, i, 1));
    lemma_square(gap(w, i, j, 2), gap(w, j, i, 2));
    assert(distance_squared(w, j, i) == d2);
    let c = d2 * (f.root)(d2);
    let r = (f.root)(d2);
    assert(c > 0 as real) by (nonlinear_arith)
        requires
            c == d2 * r,
            d2 > 0 as real,
            r > 0 as real,
    ;
    let p = g * b / c;
    let q = g * a / c;
    assert(a * p == b * q) by (nonlinear_arith)
        requires
            p == g * b / c,
            q == g * a / c,
            c > 0 as real,
    ;
    assert(a * (p * x) == -(b * (q * -x))) by (nonlinear_arith)
        requires
            a * p == b * q,
    ;
}

proof fn lemma_square(x: real, y: real)
    requires
        y == -x,
    ensures
        y * y == x * x,
{
    assert(y * y == x * x) by (nonlinear_arith)
        requires
            y == -x,
    ;
}

} // verus!
