//! Systems over the transform and velocity of bodies, and over the state of
//! interacting particles. Scalars are given by the bits of the double.

use crate::eir::{
    code, slot_offset, state_slot, Component, ComponentView, Instruction, InstructionView, Opcode,
    Real, HALF, ONE, POS_X, POS_Y, POS_Z, SOFTENING, VEL_X, VEL_Y, VEL_Z, ZERO,
};
use crate::emit::{
    binary, bits_of, bits_reg, const_of, const_reg, emit_state, fresh_reg, op_of, read_of, read_reg,
    resumed, select, test_of, test_reg, unary, write_of, write_reg, Emit,
};
use crate::rules::{contains_id, end, ended, read_slots, slot_reads, EirSystem};
use vstd::prelude::*;

verus! {

/// Whether a double is zero, of either sign.
pub open spec fn is_zero(bits: u64) -> bool {
    bits == 0 || bits == 0x8000_0000_0000_0000
}

/// Decides [`is_zero`].
pub fn zero_bits(bits: u64) -> (r: bool)
    ensures
        r == is_zero(bits),
{
    bits == 0 || bits == 0x8000_0000_0000_0000
}

/// Whether a double is finite.
pub open spec fn is_finite(bits: u64) -> bool {
    (bits / 0x10_0000_0000_0000) % 0x800 != 0x7FF
}

/// Gravity: `velocity.y += gravity_y * dt`.
pub struct GravitySystem {
    pub gravity_y: u64,
    pub dt: u64,
}

/// The code of `velocity.<axis> += a * dt`.
pub open spec fn kick(entity: u128, offset: u32, a: u64, dt: u64, s: Emit) -> Emit {
    let (s, delta) = const_of(s, Real::Product(a, dt));
    let (s, vel) = read_of(s, entity, ComponentView::Velocity, offset);
    let (s, sum) = op_of(s, Opcode::Add, seq![vel, delta]);
    write_of(s, entity, ComponentView::Velocity, offset, sum)
}

fn emit_kick(
    entity: u128,
    offset: u32,
    a: u64,
    dt: u64,
    next: &mut u32,
    out: &mut Vec<Instruction>,
)
    ensures
        emit_state(*final(next), final(out)@) == kick(
            entity,
            offset,
            a,
            dt,
            emit_state(*old(next), old(out)@),
        ),
{
    let delta: u32 = const_reg(Real::Product(a, dt), next, out);
    let vel: u32 = read_reg(entity, Component::Velocity, offset, next, out);
    let sum: u32 = binary(Opcode::Add, vel, delta, next, out);
    write_reg(entity, Component::Velocity, offset, sum, out);
}

impl EirSystem for GravitySystem {
    open spec fn title(&self) -> Seq<char> {
        "physics.gravity"@
    }

    open spec fn lowered(&self, entity: u128, out: Seq<InstructionView>) -> Seq<InstructionView> {
        ended(kick(entity, VEL_Y, self.gravity_y, self.dt, resumed(out)).out)
    }

    fn name(&self) -> (r: &'static str) {
        "physics.gravity"
    }

    fn lower_entity(&self, entity: u128, out: &mut Vec<Instruction>) {
        let mut next: u32 = fresh_reg(out);
        emit_kick(entity, VEL_Y, self.gravity_y, self.dt, &mut next, out);
        end(out);
    }
}

/// A constant acceleration: `velocity += a * dt` on each axis.
pub struct ForceSystem {
    pub ax: u64,
    pub ay: u64,
    pub az: u64,
    pub dt: u64,
}

/// The code of one axis of a force; an axis without acceleration has none.
pub open spec fn push_axis(
    entity: u128,
    offset: u32,
    a: u64,
    dt: u64,
    out: Seq<InstructionView>,
) -> Seq<InstructionView> {
    if is_zero(a) {
        out
    } else {
        kick(entity, offset, a, dt, resumed(out)).out
    }
}

fn emit_push(entity: u128, offset: u32, a: u64, dt: u64, out: &mut Vec<Instruction>)
    ensures
        code(final(out)@) == push_axis(entity, offset, a, dt, code(old(out)@)),
{
    if !zero_bits(a) {
        let mut next: u32 = fresh_reg(out);
        emit_kick(entity, offset, a, dt, &mut next, out);
    }
}

impl EirSystem for ForceSystem {
    open spec fn title(&self) -> Seq<char> {
        "physics.force"@
    }

    open spec fn lowered(&self, entity: u128, out: Seq<InstructionView>) -> Seq<InstructionView> {
        let out = push_axis(entity, VEL_X, self.ax, self.dt, out);
        let out = push_axis(entity, VEL_Y, self.ay, self.dt, out);
        let out = push_axis(entity, VEL_Z, self.az, self.dt, out);
        ended(out)
    }

    fn name(&self) -> (r: &'static str) {
        "physics.force"
    }

    fn lower_entity(&self, entity: u128, out: &mut Vec<Instruction>) {
        emit_push(entity, VEL_X, self.ax, self.dt, out);
        emit_push(entity, VEL_Y, self.ay, self.dt, out);
        emit_push(entity, VEL_Z, self.az, self.dt, out);
        end(out);
    }
}

/// A linear dynamical system over state slots: the change of slot `i` is `dt` times
/// the sum of `rows[i][j] * state[j]` and the offset `rows[i][slots]`. All slots are
/// read before any is written.
pub struct LinearSystem {
    pub rows: Vec<Vec<u64>>,
    pub slots: usize,
    pub dt: u64,
}

/// A coefficient of a row, zero past its end.
pub open spec fn coefficient(row: Seq<u64>, j: int) -> u64 {
    if 0 <= j < row.len() {
        row[j]
    } else {
        ZERO
    }
}

fn coefficient_of(row: &Vec<u64>, j: usize) -> (r: u64)
    ensures
        r == coefficient(row@, j as int),
{
    if j < row.len() {
        row[j]
    } else {
        ZERO
    }
}

/// The sum of the first `n` terms of a row, from the offset on. Terms with a zero
/// coefficient are left out.
pub open spec fn row_terms(
    row: Seq<u64>,
    slots: usize,
    dt: u64,
    regs: Seq<u32>,
    n: nat,
    s: Emit,
) -> (Emit, u32)
    decreases n,
{
    if n == 0 || n > regs.len() {
        const_of(s, Real::Product(coefficient(row, slots as int), dt))
    } else {
        let (s, acc) = row_terms(row, slots, dt, regs, (n - 1) as nat, s);
        let coeff = coefficient(row, n - 1);
        if is_zero(coeff) {
            (s, acc)
        } else {
            let (s, c) = const_of(s, Real::Product(coeff, dt));
            let (s, term) = op_of(s, Opcode::Mul, seq![regs[n - 1], c]);
            op_of(s, Opcode::Add, seq![acc, term])
        }
    }
}

/// The code of the first `n` rows.
pub open spec fn linear_rows(
    rows: Seq<Seq<u64>>,
    slots: usize,
    dt: u64,
    regs: Seq<u32>,
    n: nat,
    entity: u128,
    out: Seq<InstructionView>,
) -> Seq<InstructionView>
    decreases n,
{
    if n == 0 || n > rows.len() || n > slots {
        out
    } else {
        let out = linear_rows(rows, slots, dt, regs, (n - 1) as nat, entity, out);
        let (s, acc) = row_terms(rows[n - 1], slots, dt, regs, regs.len(), resumed(out));
        let (s, new) = op_of(s, Opcode::Add, seq![regs[n - 1], acc]);
        write_of(s, entity, ComponentView::State, slot_offset((n - 1) as usize), new).out
    }
}

/// The values of the rows.
pub open spec fn row_views(rows: Seq<Vec<u64>>) -> Seq<Seq<u64>> {
    rows.map_values(|r: Vec<u64>| r@)
}

/// The number of rows that count: one per slot.
pub open spec fn row_count(rows: nat, slots: usize) -> nat {
    if rows <= slots {
        rows
    } else {
        slots as nat
    }
}

fn emit_row_terms(
    row: &Vec<u64>,
    slots: usize,
    dt: u64,
    regs: &Vec<u32>,
    next: &mut u32,
    out: &mut Vec<Instruction>,
) -> (r: u32)
    ensures
        (emit_state(*final(next), final(out)@), r) == row_terms(
            row@,
            slots,
            dt,
            regs@,
            regs@.len(),
            emit_state(*old(next), old(out)@),
        ),
{
    let ghost start = emit_state(*next, out@);
    let mut acc: u32 = const_reg(Real::Product(coefficient_of(row, slots), dt), next, out);
    let mut j: usize = 0;
    while j < regs.len()
        invariant
            j <= regs.len(),
            (emit_state(*next, out@), acc) == row_terms(row@, slots, dt, regs@, j as nat, start),
        decreases regs.len() - j,
    {
        let coeff: u64 = coefficient_of(row, j);
        if !zero_bits(coeff) {
            let c: u32 = const_reg(Real::Product(coeff, dt), next, out);
            let term: u32 = binary(Opcode::Mul, regs[j], c, next, out);
            acc = binary(Opcode::Add, acc, term, next, out);
        }
        j = j + 1;
    }
    acc
}

/// The function of a linear system for one entity.
pub open spec fn linear_lowered(
    rows: Seq<Seq<u64>>,
    slots: usize,
    dt: u64,
    entity: u128,
    out: Seq<InstructionView>,
) -> Seq<InstructionView> {
    let (out, regs) = slot_reads(out, entity, slots as nat);
    ended(linear_rows(rows, slots, dt, regs, row_count(rows.len(), slots), entity, out))
}

impl EirSystem for LinearSystem {
    open spec fn title(&self) -> Seq<char> {
        "physics.linear"@
    }

    open spec fn lowered(&self, entity: u128, out: Seq<InstructionView>) -> Seq<InstructionView> {
        linear_lowered(row_views(self.rows@), self.slots, self.dt, entity, out)
    }

    fn name(&self) -> (r: &'static str) {
        "physics.linear"
    }

    fn lower_entity(&self, entity: u128, out: &mut Vec<Instruction>) {
        let regs: Vec<u32> = read_slots(entity, self.slots, out);
        let ghost start = code(out@);
        let ghost rows = row_views(self.rows@);
        let mut i: usize = 0;
        while i < self.rows.len() && i < self.slots
            invariant
                i <= self.rows.len(),
                i <= self.slots,
                regs@.len() == self.slots,
                rows == row_views(self.rows@),
                code(out@) == linear_rows(
                    rows,
                    self.slots,
                    self.dt,
                    regs@,
                    i as nat,
                    entity,
                    start,
                ),
            decreases self.rows.len() - i,
        {
            proof {
                assert(rows[i as int] == self.rows@[i as int]@);
            }
            let mut next: u32 = fresh_reg(out);
            let acc: u32 = emit_row_terms(
                &self.rows[i],
                self.slots,
                self.dt,
                &regs,
                &mut next,
                out,
            );
            let new: u32 = binary(Opcode::Add, regs[i], acc, &mut next, out);
            write_reg(entity, Component::State, state_slot(i), new, out);
            proof {
                assert(emit_state(next, out@).out == code(out@));
            }
            i = i + 1;
        }
        end(out);
    }
}

/// Integration: `position += velocity * dt` on each axis.
pub struct IntegrateSystem {
    pub dt: u64,
}

/// The code of one axis of an integration.
pub open spec fn drift(
    entity: u128,
    pos_offset: u32,
    vel_offset: u32,
    dt: u64,
    out: Seq<InstructionView>,
) -> Seq<InstructionView> {
    let (s, pos) = read_of(resumed(out), entity, ComponentView::Transform, pos_offset);
    let (s, vel) = read_of(s, entity, ComponentView::Velocity, vel_offset);
    let (s, step) = bits_of(s, dt);
    let (s, moved) = op_of(s, Opcode::Mul, seq![vel, step]);
    let (s, new) = op_of(s, Opcode::Add, seq![pos, moved]);
    write_of(s, entity, ComponentView::Transform, pos_offset, new).out
}

fn emit_drift(
    entity: u128,
    pos_offset: u32,
    vel_offset: u32,
    dt: u64,
    out: &mut Vec<Instruction>,
)
    ensures
        code(final(out)@) == drift(entity, pos_offset, vel_offset, dt, code(old(out)@)),
{
    let mut next: u32 = fresh_reg(out);
    let pos: u32 = read_reg(entity, Component::Transform, pos_offset, &mut next, out);
    let vel: u32 = read_reg(entity, Component::Velocity, vel_offset, &mut next, out);
    let step: u32 = bits_reg(dt, &mut next, out);
    let moved: u32 = binary(Opcode::Mul, vel, step, &mut next, out);
    let new: u32 = binary(Opcode::Add, pos, moved, &mut next, out);
    write_reg(entity, Component::Transform, pos_offset, new, out);
    proof {
        assert(emit_state(next, out@).out == code(out@));
    }
}

impl EirSystem for IntegrateSystem {
    open spec fn title(&self) -> Seq<char> {
        "physics.integrate"@
    }

    open spec fn lowered(&self, entity: u128, out: Seq<InstructionView>) -> Seq<InstructionView> {
        let out = drift(entity, POS_X, VEL_X, self.dt, out);
        let out = drift(entity, POS_Y, VEL_Y, self.dt, out);
        let out = drift(entity, POS_Z, VEL_Z, self.dt, out);
        ended(out)
    }

    fn name(&self) -> (r: &'static str) {
        "physics.integrate"
    }

    fn lower_entity(&self, entity: u128, out: &mut Vec<Instruction>) {
        emit_drift(entity, POS_X, VEL_X, self.dt, out);
        emit_drift(entity, POS_Y, VEL_Y, self.dt, out);
        emit_drift(entity, POS_Z, VEL_Z, self.dt, out);
        end(out);
    }
}

/// Damping: `velocity *= factor` on each axis.
pub struct DampingSystem {
    pub factor: u64,
}

/// The code of one axis of a damping.
pub open spec fn drag(
    entity: u128,
    offset: u32,
    factor: u64,
    out: Seq<InstructionView>,
) -> Seq<InstructionView> {
    let (s, vel) = read_of(resumed(out), entity, ComponentView::Velocity, offset);
    let (s, f) = bits_of(s, factor);
    let (s, scaled) = op_of(s, Opcode::Mul, seq![vel, f]);
    write_of(s, entity, ComponentView::Velocity, offset, scaled).out
}

fn emit_drag(entity: u128, offset: u32, factor: u64, out: &mut Vec<Instruction>)
    ensures
        code(final(out)@) == drag(entity, offset, factor, code(old(out)@)),
{
    let mut next: u32 = fresh_reg(out);
    let vel: u32 = read_reg(entity, Component::Velocity, offset, &mut next, out);
    let f: u32 = bits_reg(factor, &mut next, out);
    let scaled: u32 = binary(Opcode::Mul, vel, f, &mut next, out);
    write_reg(entity, Component::Velocity, offset, scaled, out);
    proof {
        assert(emit_state(next, out@).out == code(out@));
    }
}

impl EirSystem for DampingSystem {
    open spec fn title(&self) -> Seq<char> {
        "physics.damping"@
    }

    open spec fn lowered(&self, entity: u128, out: Seq<InstructionView>) -> Seq<InstructionView> {
        let out = drag(entity, VEL_X, self.factor, out);
        let out = drag(entity, VEL_Y, self.factor, out);
        let out = drag(entity, VEL_Z, self.factor, out);
        ended(out)
    }

    fn name(&self) -> (r: &'static str) {
        "physics.damping"
    }

    fn lower_entity(&self, entity: u128, out: &mut Vec<Instruction>) {
        emit_drag(entity, VEL_X, self.factor, out);
        emit_drag(entity, VEL_Y, self.factor, out);
        emit_drag(entity, VEL_Z, self.factor, out);
        end(out);
    }
}

/// Ground contact: a body below the ground is lifted to it, and its vertical
/// velocity is reflected and scaled by the restitution.
pub struct GroundContactSystem {
    pub restitution: u64,
}

/// The code of a ground contact, without its end.
pub open spec fn ground(restitution: u64, entity: u128, s: Emit) -> Emit {
    let (s, pos) = read_of(s, entity, ComponentView::Transform, POS_Y);
    let (s, zero) = bits_of(s, ZERO);
    let (s, below) = test_of(s, Opcode::Lt, seq![pos, zero]);
    let (s, vel) = read_of(s, entity, ComponentView::Velocity, VEL_Y);
    let (s, neg) = const_of(s, Real::Neg(restitution));
    let (s, bounced) = op_of(s, Opcode::Mul, seq![neg, vel]);
    let (s, new_vel) = op_of(s, Opcode::Select, seq![below, bounced, vel]);
    let s = write_of(s, entity, ComponentView::Velocity, VEL_Y, new_vel);
    let (s, new_pos) = op_of(s, Opcode::Select, seq![below, zero, pos]);
    write_of(s, entity, ComponentView::Transform, POS_Y, new_pos)
}

impl EirSystem for GroundContactSystem {
    open spec fn title(&self) -> Seq<char> {
        "physics.ground_contact"@
    }

    open spec fn lowered(&self, entity: u128, out: Seq<InstructionView>) -> Seq<InstructionView> {
        ended(ground(self.restitution, entity, resumed(out)).out)
    }

    fn name(&self) -> (r: &'static str) {
        "physics.ground_contact"
    }

    fn lower_entity(&self, entity: u128, out: &mut Vec<Instruction>) {
        let mut next: u32 = fresh_reg(out);
        let pos: u32 = read_reg(entity, Component::Transform, POS_Y, &mut next, out);
        let zero: u32 = bits_reg(ZERO, &mut next, out);
        let below: u32 = test_reg(Opcode::Lt, pos, zero, &mut next, out);
        let vel: u32 = read_reg(entity, Component::Velocity, VEL_Y, &mut next, out);
        let neg: u32 = const_reg(Real::Neg(self.restitution), &mut next, out);
        let bounced: u32 = binary(Opcode::Mul, neg, vel, &mut next, out);
        let new_vel: u32 = select(below, bounced, vel, &mut next, out);
        write_reg(entity, Component::Velocity, VEL_Y, new_vel, out);
        let new_pos: u32 = select(below, zero, pos, &mut next, out);
        write_reg(entity, Component::Transform, POS_Y, new_pos, out);
        proof {
            assert(emit_state(next, out@).out == code(out@));
        }
        end(out);
    }
}

/// A walled domain: keeps bodies within `|x| <= x` and `|z| <= z`, and above
/// `y_min` where that is finite. On a wall the velocity is reflected and scaled by
/// the restitution, and the position is moved to the wall.
pub struct WallSystem {
    pub x: u64,
    pub z: u64,
    pub y_min: u64,
    pub restitution: u64,
}

/// The code of a pair of opposite walls.
pub open spec fn wall_pair(
    entity: u128,
    pos_offset: u32,
    vel_offset: u32,
    limit: u64,
    restitution: u64,
    s: Emit,
) -> Emit {
    let (s, p) = read_of(s, entity, ComponentView::Transform, pos_offset);
    let (s, v) = read_of(s, entity, ComponentView::Velocity, vel_offset);
    let (s, lo) = const_of(s, Real::Neg(limit));
    let (s, hi) = bits_of(s, limit);
    let (s, hit_r) = test_of(s, Opcode::Gt, seq![p, hi]);
    let (s, hit_l) = test_of(s, Opcode::Lt, seq![p, lo]);
    let (s, one) = bits_of(s, ONE);
    let (s, zero) = bits_of(s, ZERO);
    let (s, hr) = op_of(s, Opcode::Select, seq![hit_r, one, zero]);
    let (s, hl) = op_of(s, Opcode::Select, seq![hit_l, one, zero]);
    let (s, any) = op_of(s, Opcode::Add, seq![hr, hl]);
    let (s, half) = bits_of(s, HALF);
    let (s, hit) = test_of(s, Opcode::Gt, seq![any, half]);
    let (s, neg) = const_of(s, Real::Neg(restitution));
    let (s, reflected) = op_of(s, Opcode::Mul, seq![v, neg]);
    let (s, new_v) = op_of(s, Opcode::Select, seq![hit, reflected, v]);
    let (s, inner) = op_of(s, Opcode::Select, seq![hit_l, lo, p]);
    let (s, new_p) = op_of(s, Opcode::Select, seq![hit_r, hi, inner]);
    let s = write_of(s, entity, ComponentView::Transform, pos_offset, new_p);
    write_of(s, entity, ComponentView::Velocity, vel_offset, new_v)
}

fn emit_wall_pair(
    entity: u128,
    pos_offset: u32,
    vel_offset: u32,
    limit: u64,
    restitution: u64,
    next: &mut u32,
    out: &mut Vec<Instruction>,
)
    ensures
        emit_state(*final(next), final(out)@) == wall_pair(
            entity,
            pos_offset,
            vel_offset,
            limit,
            restitution,
            emit_state(*old(next), old(out)@),
        ),
{
    let p: u32 = read_reg(entity, Component::Transform, pos_offset, next, out);
    let v: u32 = read_reg(entity, Component::Velocity, vel_offset, next, out);
    let lo: u32 = const_reg(Real::Neg(limit), next, out);
    let hi: u32 = bits_reg(limit, next, out);
    let hit_r: u32 = test_reg(Opcode::Gt, p, hi, next, out);
    let hit_l: u32 = test_reg(Opcode::Lt, p, lo, next, out);
    let one: u32 = bits_reg(ONE, next, out);
    let zero: u32 = bits_reg(ZERO, next, out);
    let hr: u32 = select(hit_r, one, zero, next, out);
    let hl: u32 = select(hit_l, one, zero, next, out);
    let any: u32 = binary(Opcode::Add, hr, hl, next, out);
    let half: u32 = bits_reg(HALF, next, out);
    let hit: u32 = test_reg(Opcode::Gt, any, half, next, out);
    let neg: u32 = const_reg(Real::Neg(restitution), next, out);
    let reflected: u32 = binary(Opcode::Mul, v, neg, next, out);
    let new_v: u32 = select(hit, reflected, v, next, out);
    let inner: u32 = select(hit_l, lo, p, next, out);
    let new_p: u32 = select(hit_r, hi, inner, next, out);
    write_reg(entity, Component::Transform, pos_offset, new_p, out);
    proof {
        assert(emit_state(*next, out@).out == code(out@));
    }
    write_reg(entity, Component::Velocity, vel_offset, new_v, out);
}

/// The code of the floor of a walled domain.
pub open spec fn wall_floor(entity: u128, y_min: u64, restitution: u64, s: Emit) -> Emit {
    let (s, p) = read_of(s, entity, ComponentView::Transform, POS_Y);
    let (s, v) = read_of(s, entity, ComponentView::Velocity, VEL_Y);
    let (s, lo) = bits_of(s, y_min);
    let (s, hit) = test_of(s, Opcode::Lt, seq![p, lo]);
    let (s, neg) = const_of(s, Real::Neg(restitution));
    let (s, reflected) = op_of(s, Opcode::Mul, seq![v, neg]);
    let (s, new_v) = op_of(s, Opcode::Select, seq![hit, reflected, v]);
    let (s, new_p) = op_of(s, Opcode::Select, seq![hit, lo, p]);
    let s = write_of(s, entity, ComponentView::Transform, POS_Y, new_p);
    write_of(s, entity, ComponentView::Velocity, VEL_Y, new_v)
}

fn emit_wall_floor(
    entity: u128,
    y_min: u64,
    restitution: u64,
    next: &mut u32,
    out: &mut Vec<Instruction>,
)
    ensures
        emit_state(*final(next), final(out)@) == wall_floor(
            entity,
            y_min,
            restitution,
            emit_state(*old(next), old(out)@),
        ),
{
    let p: u32 = read_reg(entity, Component::Transform, POS_Y, next, out);
    let v: u32 = read_reg(entity, Component::Velocity, VEL_Y, next, out);
    let lo: u32 = bits_reg(y_min, next, out);
    let hit: u32 = test_reg(Opcode::Lt, p, lo, next, out);
    let neg: u32 = const_reg(Real::Neg(restitution), next, out);
    let reflected: u32 = binary(Opcode::Mul, v, neg, next, out);
    let new_v: u32 = select(hit, reflected, v, next, out);
    let new_p: u32 = select(hit, lo, p, next, out);
    write_reg(entity, Component::Transform, POS_Y, new_p, out);
    proof {
        assert(emit_state(*next, out@).out == code(out@));
    }
    write_reg(entity, Component::Velocity, VEL_Y, new_v, out);
}

impl EirSystem for WallSystem {
    open spec fn title(&self) -> Seq<char> {
        "physics.wall"@
    }

    open spec fn lowered(&self, entity: u128, out: Seq<InstructionView>) -> Seq<InstructionView> {
        let s = wall_pair(entity, POS_X, VEL_X, self.x, self.restitution, resumed(out));
        let s = wall_pair(entity, POS_Z, VEL_Z, self.z, self.restitution, s);
        let s = if is_finite(self.y_min) {
            wall_floor(entity, self.y_min, self.restitution, s)
        } else {
            s
        };
        ended(s.out)
    }

    fn name(&self) -> (r: &'static str) {
        "physics.wall"
    }

    fn lower_entity(&self, entity: u128, out: &mut Vec<Instruction>) {
        let mut next: u32 = fresh_reg(out);
        emit_wall_pair(entity, POS_X, VEL_X, self.x, self.restitution, &mut next, out);
        emit_wall_pair(entity, POS_Z, VEL_Z, self.z, self.restitution, &mut next, out);
        if (self.y_min / 0x10_0000_0000_0000) % 0x800 != 0x7FF {
            emit_wall_floor(entity, self.y_min, self.restitution, &mut next, out);
        }
        end(out);
    }
}

/// Mutual inverse-square interaction of bodies with the state
/// `(px, py, pz, vx, vy, vz, m)`. The sign of `g` makes it attraction or repulsion.
pub struct NbodySystem {
    pub bodies: Vec<u128>,
    pub g: u64,
    pub dt: u64,
}

/// A read of a state slot.
pub open spec fn nb_read_of(s: Emit, entity: u128, slot: usize) -> (Emit, u32) {
    read_of(s, entity, ComponentView::State, slot_offset(slot))
}

fn nb_read(out: &mut Vec<Instruction>, next: &mut u32, entity: u128, slot: usize) -> (r: u32)
    ensures
        (emit_state(*final(next), final(out)@), r) == nb_read_of(
            emit_state(*old(next), old(out)@),
            entity,
            slot,
        ),
{
    read_reg(entity, Component::State, state_slot(slot), next, out)
}

/// A write of a state slot.
pub open spec fn nb_write_of(s: Emit, entity: u128, slot: usize, v: u32) -> Emit {
    write_of(s, entity, ComponentView::State, slot_offset(slot), v)
}

fn nb_write(out: &mut Vec<Instruction>, entity: u128, slot: usize, v: u32)
    ensures
        forall|next: u32|
            #![trigger emit_state(next, final(out)@)]
            emit_state(next, final(out)@) == nb_write_of(
                emit_state(next, old(out)@),
                entity,
                slot,
                v,
            ),
{
    write_reg(entity, Component::State, state_slot(slot), v, out);
}

/// Three registers.
pub type Triple = (u32, u32, u32);

/// The pull of body `j` on a body at `p`: `g * m_j * d / |d|^3`, the distance
/// softened.
pub open spec fn pull(j: u128, p: Triple, g: u64, s: Emit) -> (Emit, Triple) {
    let (s, jx) = nb_read_of(s, j, 0);
    let (s, jy) = nb_read_of(s, j, 1);
    let (s, jz) = nb_read_of(s, j, 2);
    let (s, jm) = nb_read_of(s, j, 6);
    let (s, dx) = op_of(s, Opcode::Sub, seq![jx, p.0]);
    let (s, dy) = op_of(s, Opcode::Sub, seq![jy, p.1]);
    let (s, dz) = op_of(s, Opcode::Sub, seq![jz, p.2]);
    let (s, dx2) = op_of(s, Opcode::Mul, seq![dx, dx]);
    let (s, dy2) = op_of(s, Opcode::Mul, seq![dy, dy]);
    let (s, dz2) = op_of(s, Opcode::Mul, seq![dz, dz]);
    let (s, sxy) = op_of(s, Opcode::Add, seq![dx2, dy2]);
    let (s, r2) = op_of(s, Opcode::Add, seq![sxy, dz2]);
    let (s, eps) = bits_of(s, SOFTENING);
    let (s, soft) = op_of(s, Opcode::Add, seq![r2, eps]);
    let (s, r) = op_of(s, Opcode::Sqrt, seq![soft]);
    let (s, r3) = op_of(s, Opcode::Mul, seq![soft, r]);
    let (s, gc) = bits_of(s, g);
    let (s, gm) = op_of(s, Opcode::Mul, seq![gc, jm]);
    let (s, scale) = op_of(s, Opcode::Div, seq![gm, r3]);
    let (s, tx) = op_of(s, Opcode::Mul, seq![scale, dx]);
    let (s, ty) = op_of(s, Opcode::Mul, seq![scale, dy]);
    let (s, tz) = op_of(s, Opcode::Mul, seq![scale, dz]);
    (s, (tx, ty, tz))
}

fn emit_pull(j: u128, p: Triple, g: u64, next: &mut u32, out: &mut Vec<Instruction>) -> (r: Triple)
    ensures
        (emit_state(*final(next), final(out)@), r) == pull(
            j,
            p,
            g,
            emit_state(*old(next), old(out)@),
        ),
{
    let jx: u32 = nb_read(out, next, j, 0);
    let jy: u32 = nb_read(out, next, j, 1);
    let jz: u32 = nb_read(out, next, j, 2);
    let jm: u32 = nb_read(out, next, j, 6);
    let dx: u32 = binary(Opcode::Sub, jx, p.0, next, out);
    let dy: u32 = binary(Opcode::Sub, jy, p.1, next, out);
    let dz: u32 = binary(Opcode::Sub, jz, p.2, next, out);
    let dx2: u32 = binary(Opcode::Mul, dx, dx, next, out);
    let dy2: u32 = binary(Opcode::Mul, dy, dy, next, out);
    let dz2: u32 = binary(Opcode::Mul, dz, dz, next, out);
    let sxy: u32 = binary(Opcode::Add, dx2, dy2, next, out);
    let r2: u32 = binary(Opcode::Add, sxy, dz2, next, out);
    let eps: u32 = bits_reg(SOFTENING, next, out);
    let soft: u32 = binary(Opcode::Add, r2, eps, next, out);
    let r: u32 = unary(Opcode::Sqrt, soft, next, out);
    let r3: u32 = binary(Opcode::Mul, soft, r, next, out);
    let gc: u32 = bits_reg(g, next, out);
    let gm: u32 = binary(Opcode::Mul, gc, jm, next, out);
    let scale: u32 = binary(Opcode::Div, gm, r3, next, out);
    let tx: u32 = binary(Opcode::Mul, scale, dx, next, out);
    let ty: u32 = binary(Opcode::Mul, scale, dy, next, out);
    let tz: u32 = binary(Opcode::Mul, scale, dz, next, out);
    (tx, ty, tz)
}

/// The acceleration of a body by the first `n` bodies, from `a` on; a body does not
/// pull itself.
pub open spec fn pulls(
    bodies: Seq<u128>,
    n: nat,
    entity: u128,
    p: Triple,
    g: u64,
    a: Triple,
    s: Emit,
) -> (Emit, Triple)
    decreases n,
{
    if n == 0 || n > bodies.len() {
        (s, a)
    } else {
        let (s, a) = pulls(bodies, (n - 1) as nat, entity, p, g, a, s);
        if bodies[n - 1] == entity {
            (s, a)
        } else {
            let (s, t) = pull(bodies[n - 1], p, g, s);
            let (s, x) = op_of(s, Opcode::Add, seq![a.0, t.0]);
            let (s, y) = op_of(s, Opcode::Add, seq![a.1, t.1]);
            let (s, z) = op_of(s, Opcode::Add, seq![a.2, t.2]);
            (s, (x, y, z))
        }
    }
}

/// `b + d * dt` on each of three axes.
pub open spec fn advance(b: Triple, d: Triple, dt: u64, s: Emit) -> (Emit, Triple) {
    let (s, step) = bits_of(s, dt);
    let (s, x) = op_of(s, Opcode::Mul, seq![d.0, step]);
    let (s, y) = op_of(s, Opcode::Mul, seq![d.1, step]);
    let (s, z) = op_of(s, Opcode::Mul, seq![d.2, step]);
    let (s, nx) = op_of(s, Opcode::Add, seq![b.0, x]);
    let (s, ny) = op_of(s, Opcode::Add, seq![b.1, y]);
    let (s, nz) = op_of(s, Opcode::Add, seq![b.2, z]);
    (s, (nx, ny, nz))
}

fn emit_advance(b: Triple, d: Triple, dt: u64, next: &mut u32, out: &mut Vec<Instruction>) -> (r:
    Triple)
    ensures
        (emit_state(*final(next), final(out)@), r) == advance(
            b,
            d,
            dt,
            emit_state(*old(next), old(out)@),
        ),
{
    let step: u32 = bits_reg(dt, next, out);
    let x: u32 = binary(Opcode::Mul, d.0, step, next, out);
    let y: u32 = binary(Opcode::Mul, d.1, step, next, out);
    let z: u32 = binary(Opcode::Mul, d.2, step, next, out);
    let nx: u32 = binary(Opcode::Add, b.0, x, next, out);
    let ny: u32 = binary(Opcode::Add, b.1, y, next, out);
    let nz: u32 = binary(Opcode::Add, b.2, z, next, out);
    (nx, ny, nz)
}

/// Three consecutive state slots, read.
pub open spec fn triple_of(entity: u128, slot: usize, s: Emit) -> (Emit, Triple) {
    let (s, x) = nb_read_of(s, entity, slot);
    let (s, y) = nb_read_of(s, entity, (slot + 1) as usize);
    let (s, z) = nb_read_of(s, entity, (slot + 2) as usize);
    (s, (x, y, z))
}

fn emit_triple(entity: u128, slot: usize, next: &mut u32, out: &mut Vec<Instruction>) -> (r: Triple)
    requires
        slot < 8,
    ensures
        (emit_state(*final(next), final(out)@), r) == triple_of(
            entity,
            slot,
            emit_state(*old(next), old(out)@),
        ),
{
    let x: u32 = nb_read(out, next, entity, slot);
    let y: u32 = nb_read(out, next, entity, slot + 1);
    let z: u32 = nb_read(out, next, entity, slot + 2);
    (x, y, z)
}

/// Three consecutive state slots, written.
pub open spec fn triple_write(entity: u128, slot: usize, v: Triple, s: Emit) -> Emit {
    let s = nb_write_of(s, entity, slot, v.0);
    let s = nb_write_of(s, entity, (slot + 1) as usize, v.1);
    nb_write_of(s, entity, (slot + 2) as usize, v.2)
}

fn emit_triple_write(entity: u128, slot: usize, v: Triple, out: &mut Vec<Instruction>)
    requires
        slot < 8,
    ensures
        forall|next: u32|
            #![trigger emit_state(next, final(out)@)]
            emit_state(next, final(out)@) == triple_write(
                entity,
                slot,
                v,
                emit_state(next, old(out)@),
            ),
{
    let ghost o0 = out@;
    nb_write(out, entity, slot, v.0);
    let ghost o1 = out@;
    nb_write(out, entity, slot + 1, v.1);
    let ghost o2 = out@;
    nb_write(out, entity, slot + 2, v.2);
    proof {
        assert forall|next: u32|
            #![trigger emit_state(next, out@)]
            emit_state(next, out@) == triple_write(entity, slot, v, emit_state(next, o0)) by {
            assert(emit_state(next, o1) == nb_write_of(emit_state(next, o0), entity, slot, v.0));
            assert(emit_state(next, o2) == nb_write_of(
                emit_state(next, o1),
                entity,
                (slot + 1) as usize,
                v.1,
            ));
        }
    }
}

/// The code of a body, without its end: velocity first, then position with the new
/// velocity.
pub open spec fn nbody_code(bodies: Seq<u128>, g: u64, dt: u64, entity: u128, s: Emit) -> Emit {
    let (s, p) = triple_of(entity, 0, s);
    let (s, v) = triple_of(entity, 3, s);
    let (s, ax) = bits_of(s, ZERO);
    let (s, ay) = bits_of(s, ZERO);
    let (s, az) = bits_of(s, ZERO);
    let (s, a) = pulls(bodies, bodies.len(), entity, p, g, (ax, ay, az), s);
    let (s, nv) = advance(v, a, dt, s);
    let (s, np) = advance(p, nv, dt, s);
    let s = triple_write(entity, 3, nv, s);
    triple_write(entity, 0, np, s)
}

/// The function of a mutual attraction for one entity.
pub open spec fn nbody_lowered(
    bodies: Seq<u128>,
    g: u64,
    dt: u64,
    entity: u128,
    out: Seq<InstructionView>,
) -> Seq<InstructionView> {
    if !bodies.contains(entity) {
        ended(out)
    } else {
        ended(nbody_code(bodies, g, dt, entity, resumed(out)).out)
    }
}

impl EirSystem for NbodySystem {
    open spec fn title(&self) -> Seq<char> {
        "physics.nbody"@
    }

    open spec fn lowered(&self, entity: u128, out: Seq<InstructionView>) -> Seq<InstructionView> {
        nbody_lowered(self.bodies@, self.g, self.dt, entity, out)
    }

    fn name(&self) -> (r: &'static str) {
        "physics.nbody"
    }

    fn lower_entity(&self, entity: u128, out: &mut Vec<Instruction>) {
        if !contains_id(&self.bodies, entity) {
            end(out);
            return ;
        }
        let mut next: u32 = fresh_reg(out);
        let p: Triple = emit_triple(entity, 0, &mut next, out);
        let v: Triple = emit_triple(entity, 3, &mut next, out);
        let ax: u32 = bits_reg(ZERO, &mut next, out);
        let ay: u32 = bits_reg(ZERO, &mut next, out);
        let az: u32 = bits_reg(ZERO, &mut next, out);
        let mut a: Triple = (ax, ay, az);
        let ghost start = emit_state(next, out@);
        let mut i: usize = 0;
        while i < self.bodies.len()
            invariant
                i <= self.bodies.len(),
                (emit_state(next, out@), a) == pulls(
                    self.bodies@,
                    i as nat,
                    entity,
                    p,
                    self.g,
                    (ax, ay, az),
                    start,
                ),
            decreases self.bodies.len() - i,
        {
            let j: u128 = self.bodies[i];
            if j != entity {
                let t: Triple = emit_pull(j, p, self.g, &mut next, out);
                let x: u32 = binary(Opcode::Add, a.0, t.0, &mut next, out);
                let y: u32 = binary(Opcode::Add, a.1, t.1, &mut next, out);
                let z: u32 = binary(Opcode::Add, a.2, t.2, &mut next, out);
                a = (x, y, z);
            }
            i = i + 1;
        }
        let nv: Triple = emit_advance(v, a, self.dt, &mut next, out);
        let np: Triple = emit_advance(p, nv, self.dt, &mut next, out);
        emit_triple_write(entity, 3, nv, out);
        proof {
            assert(emit_state(next, out@).out == code(out@));
        }
        emit_triple_write(entity, 0, np, out);
        proof {
            assert(emit_state(next, out@).out == code(out@));
        }
        end(out);
    }
}

} // verus!
