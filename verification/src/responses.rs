//! What linear systems, receivers, spawners and field solvers do, in exact arithmetic.

use crate::bodies::{
    coefficient, is_zero, linear_rows, row_count, row_terms, row_views, LinearSystem,
};
use crate::chan::{ChanOp, ChanSystem};
use crate::eir::{
    slot_offset, ComponentRefView, ComponentView, ImmediateView, InstructionView, Opcode, Real,
};
use crate::emit::{const_of, const_u64_of, op_of, read_of, resumed, write_of, Emit};
use crate::fields::{field_limbs, name_view, DiffuseSystem, PoissonSystem, WaveSystem};
use crate::functions::{lemma_linear_rows, lemma_row_terms};
use crate::integration::{lemma_offset, lemma_slots_read};
use crate::meaning::{
    amount, followed, group_follow, held_by, lemma_numbers, lemma_registers_stay, lemma_run_push,
    number_of, run, Functions, Machine,
};
use crate::motion::{follows, lemma_zero, slot_of, Fields};
use crate::numbering::{after, group_code, has, has_all, tidy};
use crate::pools::{activations, limb_consts, SpawnSystem};
use crate::rules::{slot_reads, EirSystem};
use vstd::prelude::*;

verus! {

broadcast use group_code;

/// An entry of a row, zero past its end.
pub open spec fn entry(row: Seq<u64>, j: int) -> real {
    if 0 <= j < row.len() {
        number_of(row[j])
    } else {
        0 as real
    }
}

/// The product of a row with the first `n` slots of an entity.
pub open spec fn row_times(row: Seq<u64>, entity: u128, w: Fields, n: nat) -> real
    decreases n,
{
    if n == 0 {
        0 as real
    } else {
        row_times(row, entity, w, (n - 1) as nat) + entry(row, n - 1) * w[slot_of(entity, n - 1)]
    }
}

proof fn lemma_entry(row: Seq<u64>, j: int)
    ensures
        entry(row, j) == number_of(coefficient(row, j)),
{
    lemma_numbers();
}

/// Whether registers hold the slots of an entity.
spec fn hold_slots(
    s: Emit,
    regs: Seq<u32>,
    entity: u128,
    w: Fields,
    f: Functions,
    m: Machine,
) -> bool {
    forall|i: int|
        0 <= i < regs.len() ==> held_by(s, #[trigger] regs[i], f, m) == w[slot_of(entity, i)]
}

proof fn lemma_row_value(
    row: Seq<u64>,
    slots: usize,
    dt: u64,
    regs: Seq<u32>,
    n: nat,
    s: Emit,
    entity: u128,
    w: Fields,
    f: Functions,
    m: Machine,
)
    requires
        tidy(s, 1),
        has_all(s, 1, regs),
        n <= regs.len(),
        hold_slots(s, regs, entity, w, f, m),
        1 + row_terms(row, slots, dt, regs, n, s).0.out.len() < u32::MAX,
    ensures
        ({
            let (t, r) = row_terms(row, slots, dt, regs, n, s);
            &&& held_by(t, r, f, m) == number_of(dt) * (row_times(row, entity, w, n) + entry(
                row,
                slots as int,
            ))
            &&& run(t.out, f, m).world == run(s.out, f, m).world
        }),
    decreases n,
{
    broadcast use group_follow;

    assert(followed(f, m));
    lemma_row_terms(row, slots, dt, regs, n, s);
    let step = number_of(dt);
    let offset = entry(row, slots as int);
    lemma_entry(row, slots as int);
    if n == 0 {
        assert(offset * step == step * (0 as real + offset)) by (nonlinear_arith);
    } else {
        lemma_row_terms(row, slots, dt, regs, (n - 1) as nat, s);
        let (s1, acc) = row_terms(row, slots, dt, regs, (n - 1) as nat, s);
        let coeff = coefficient(row, n - 1);
        let c = entry(row, n - 1);
        let x = w[slot_of(entity, n - 1)];
        let before = row_times(row, entity, w, (n - 1) as nat);
        lemma_entry(row, n - 1);
        lemma_row_value(row, slots, dt, regs, (n - 1) as nat, s, entity, w, f, m);
        if is_zero(coeff) {
            lemma_zero(coeff, x);
        } else {
            lemma_registers_stay(s, s1, f, m);
            let y = regs[n - 1];
            assert(has(s, 1, y));
            let (s2, k) = const_of(s1, Real::Product(coeff, dt));
            let (s3, term) = op_of(s2, Opcode::Mul, seq![y, k]);
            let (s4, sum) = op_of(s3, Opcode::Add, seq![acc, term]);
            assert(held_by(s3, term, f, m) == held_by(s2, y, f, m) * held_by(s2, k, f, m));
            assert(held_by(s4, sum, f, m) == held_by(s3, acc, f, m) + held_by(s3, term, f, m));
            assert(step * (before + offset) + x * (c * step) == step * (before + c * x + offset))
                by (nonlinear_arith);
        }
    }
}

proof fn lemma_rows_written(
    rows: Seq<Seq<u64>>,
    slots: usize,
    dt: u64,
    regs: Seq<u32>,
    n: nat,
    entity: u128,
    out: Seq<InstructionView>,
    w: Fields,
    f: Functions,
    m: Machine,
)
    requires
        tidy(resumed(out), 1),
        has_all(resumed(out), 1, regs),
        regs.len() == slots,
        8 * slots <= u32::MAX,
        n <= rows.len(),
        n <= slots,
        hold_slots(resumed(out), regs, entity, w, f, m),
        run(out, f, m).world == w,
        1 + linear_rows(rows, slots, dt, regs, n, entity, out).len() < u32::MAX,
    ensures
        ({
            let done = run(linear_rows(rows, slots, dt, regs, n, entity, out), f, m).world;
            &&& forall|i: int|
                0 <= i < n ==> #[trigger] done[slot_of(entity, i)] == w[slot_of(entity, i)]
                    + number_of(dt) * (row_times(rows[i], entity, w, slots as nat) + entry(
                    rows[i],
                    slots as int,
                ))
            &&& forall|at: ComponentRefView|
                (forall|i: int| 0 <= i < n ==> at != #[trigger] slot_of(entity, i))
                    ==> #[trigger] done[at] == w[at]
        }),
    decreases n,
{
    if n > 0 {
        let k = (n - 1) as nat;
        lemma_linear_rows(rows, slots, dt, regs, n, entity, out);
        lemma_linear_rows(rows, slots, dt, regs, k, entity, out);
        let before = linear_rows(rows, slots, dt, regs, k, entity, out);
        let s0 = resumed(before);
        lemma_row_terms(rows[n - 1], slots, dt, regs, regs.len(), s0);
        let (s1, acc) = row_terms(rows[n - 1], slots, dt, regs, regs.len(), s0);
        let y = regs[n - 1];
        let (s2, new) = op_of(s1, Opcode::Add, seq![y, acc]);
        let s3 = write_of(s2, entity, ComponentView::State, slot_offset((n - 1) as usize), new);
        lemma_rows_written(rows, slots, dt, regs, k, entity, out, w, f, m);
        assert(has(resumed(out), 1, y));
        lemma_registers_stay(resumed(out), s0, f, m);
        assert forall|i: int| 0 <= i < regs.len() implies held_by(s0, #[trigger] regs[i], f, m)
            == w[slot_of(entity, i)] && has(s0, 1, regs[i]) by {
            assert(has(resumed(out), 1, regs[i]));
        }
        lemma_row_value(rows[n - 1], slots, dt, regs, regs.len(), s0, entity, w, f, m);
        lemma_registers_stay(s0, s1, f, m);
        lemma_offset((n - 1) as usize, slots);
        broadcast use group_follow;

        assert(followed(f, m));
        assert(held_by(s2, new, f, m) == held_by(s1, y, f, m) + held_by(s1, acc, f, m));
        let mid = run(before, f, m).world;
        assert(run(s3.out, f, m).world == mid.insert(slot_of(entity, n - 1), held_by(s2, new, f, m)));
        assert forall|i: int| 0 <= i < n implies #[trigger] run(s3.out, f, m).world[slot_of(
            entity,
            i,
        )] == w[slot_of(entity, i)] + number_of(dt) * (row_times(rows[i], entity, w, slots as nat)
            + entry(rows[i], slots as int)) by {
            if i < n - 1 {
                assert(slot_of(entity, i) != slot_of(entity, n - 1));
                assert(mid[slot_of(entity, i)] == mid[slot_of(entity, i)]);
            }
        }
        assert forall|at: ComponentRefView|
            (forall|i: int| 0 <= i < n ==> at != #[trigger] slot_of(
                entity,
                i,
            )) implies #[trigger] run(s3.out, f, m).world[at] == w[at] by {
            assert(at != slot_of(entity, n - 1));
            assert(mid[at] == w[at]);
        }
    }
}

/// A linear system changes every slot that has a row by the step times the product of its
/// row with the state, plus the offset of the row. The state is the one before the system,
/// for every row, and nothing else changes.
pub proof fn law_linear(
    sys: LinearSystem,
    entity: u128,
    out: Seq<InstructionView>,
    f: Functions,
    m: Machine,
)
    requires
        follows(out, sys.lowered(entity, out)),
        8 * sys.slots <= u32::MAX,
    ensures
        ({
            let w = run(out, f, m).world;
            let after = run(sys.lowered(entity, out), f, m).world;
            &&& forall|i: int|
                0 <= i < sys.rows@.len() && i < sys.slots ==> #[trigger] after[slot_of(entity, i)]
                    == w[slot_of(entity, i)] + number_of(sys.dt) * (row_times(
                    sys.rows@[i]@,
                    entity,
                    w,
                    sys.slots as nat,
                ) + entry(sys.rows@[i]@, sys.slots as int))
            &&& forall|at: ComponentRefView|
                (forall|i: int|
                    0 <= i < sys.rows@.len() && i < sys.slots ==> at != #[trigger] slot_of(
                        entity,
                        i,
                    )) ==> #[trigger] after[at] == w[at]
        }),
{
    let slots = sys.slots;
    let rows = row_views(sys.rows@);
    let n = row_count(rows.len(), slots);
    let (read, regs) = slot_reads(out, entity, slots as nat);
    let code = linear_rows(rows, slots, sys.dt, regs, n, entity, read);
    crate::functions::lemma_slots(out, entity, slots as nat);
    crate::rules::lemma_slot_reads_len(out, entity, slots as nat);
    lemma_linear_rows(rows, slots, sys.dt, regs, n, entity, read);
    lemma_slots_read(out, entity, slots as nat, slots, f, m);
    let w = run(out, f, m).world;
    lemma_rows_written(rows, slots, sys.dt, regs, n, entity, read, w, f, m);
    broadcast use lemma_run_push;

    let after = run(sys.lowered(entity, out), f, m).world;
    assert(after == run(code, f, m).world);
}

/// Receiving copies the value of a channel to the own slot, and changes nothing else.
pub proof fn law_receive(
    sys: ChanSystem,
    entity: u128,
    out: Seq<InstructionView>,
    f: Functions,
    m: Machine,
)
    requires
        sys.op == ChanOp::Recv,
        follows(out, sys.lowered(entity, out)),
        8 * sys.slots <= u32::MAX,
        8 * sys.slot <= u32::MAX,
    ensures
        ({
            let w = run(out, f, m).world;
            run(sys.lowered(entity, out), f, m).world == w.insert(
                slot_of(entity, sys.slot as int),
                w[slot_of(sys.channel_entity, 0)],
            )
        }),
{
    let slots = sys.slots as nat;
    let (read, regs) = slot_reads(out, entity, slots);
    crate::functions::lemma_slots(out, entity, slots);
    lemma_slots_read(out, entity, slots, sys.slots, f, m);
    broadcast use {group_follow, lemma_run_push};

    assert(followed(f, m));
    let (s, r) = read_of(resumed(read), sys.channel_entity, ComponentView::State, slot_offset(0));
    assert(slot_offset(0) == 0);
    assert(slot_offset(sys.slot) == 8 * sys.slot);
    let t = write_of(s, entity, ComponentView::State, slot_offset(sys.slot), r);
    assert(held_by(s, r, f, m) == run(out, f, m).world[slot_of(sys.channel_entity, 0)]);
}

/// The solver instruction of a function: the last one before it ends.
pub open spec fn sweep(code: Seq<InstructionView>) -> InstructionView {
    code[code.len() - 2]
}

/// The value of an operand of the solver instruction of a function.
pub open spec fn handed(
    code: Seq<InstructionView>,
    k: int,
    f: Functions,
    m: Machine,
) -> real {
    run(code.take(code.len() - 2), f, m).regs[sweep(code).operands[k]]
}

/// Whether a function ends with one solver instruction over a field, with a number of
/// operands, and only computes before it.
pub open spec fn sweeps(
    out: Seq<InstructionView>,
    code: Seq<InstructionView>,
    opcode: Opcode,
    field: Seq<char>,
    width: u32,
    operands: nat,
) -> bool {
    &&& out.len() + 2 <= code.len()
    &&& code.take(out.len() as int) == out
    &&& code.last().opcode == Opcode::Return
    &&& sweep(code).opcode == opcode
    &&& sweep(code).target == Some(
        ComponentRefView { entity: 0, component: ComponentView::Field(field), offset: width },
    )
    &&& sweep(code).operands.len() == operands
    &&& forall|i: int|
        out.len() <= i < code.len() - 2 ==> (#[trigger] code[i]).opcode == Opcode::Const
}

/// Whether an operand of the solver instruction of a function is a limb of the identifier
/// of a field.
pub open spec fn names_limb(
    out: Seq<InstructionView>,
    code: Seq<InstructionView>,
    k: int,
    field: Seq<char>,
) -> bool {
    exists|i: int|
        out.len() <= i < code.len() - 2 && (#[trigger] code[i]).result_id == sweep(
            code,
        ).operands[k] && code[i].constant == Some(
            ImmediateView::Limb(ComponentView::Field(field), k as u8),
        )
}

/// Whether a function does nothing.
pub open spec fn idles(out: Seq<InstructionView>, code: Seq<InstructionView>) -> bool {
    &&& code.len() == out.len() + 1
    &&& code.take(out.len() as int) == out
    &&& code.last().opcode == Opcode::Return
}

/// A diffusion hands its rate to one sweep over its field, in the function of one entity;
/// those of the others do nothing.
pub proof fn law_diffuse(
    sys: DiffuseSystem,
    entity: u128,
    out: Seq<InstructionView>,
    f: Functions,
    m: Machine,
)
    requires
        follows(out, sys.lowered(entity, out)),
    ensures
        ({
            let code = sys.lowered(entity, out);
            if entity == sys.run_on {
                &&& sweeps(out, code, Opcode::FieldDiffuse, sys.field@, sys.width, 1)
                &&& handed(code, 0, f, m) == number_of(sys.rate)
            } else {
                idles(out, code)
            }
        }),
{
    let code = sys.lowered(entity, out);
    assert(code.take(out.len() as int) =~= out);
    if entity == sys.run_on {
        broadcast use group_follow;

        assert(followed(f, m));
        let (s, r) = const_of(resumed(out), Real::Bits(sys.rate));
        assert(code.take(code.len() - 2) =~= s.out);
        assert(held_by(s, r, f, m) == amount(Real::Bits(sys.rate)));
    }
}

/// The constant for a limb of the identifier of an optional field.
pub open spec fn limb_of(field: Option<Seq<char>>, k: int) -> ImmediateView {
    match field {
        Some(name) => ImmediateView::Limb(ComponentView::Field(name), k as u8),
        None => ImmediateView::U64(0),
    }
}

proof fn lemma_limbs(field: Option<Seq<char>>, n: nat, s: Emit, f: Functions, m: Machine)
    requires
        tidy(s, 1),
        1 + s.out.len() + n < u32::MAX,
    ensures
        ({
            let (t, regs) = field_limbs(field, n, s);
            let from = s.out.len() as int;
            &&& tidy(t, 1)
            &&& after(s, t, 1)
            &&& has_all(t, 1, regs)
            &&& regs.len() == n
            &&& t.out.len() == from + n
            &&& t.out.take(from) == s.out
            &&& forall|k: int|
                0 <= k < n ==> (#[trigger] t.out[from + k]).opcode == Opcode::Const
                    && t.out[from + k].result_id == regs[k] && t.out[from + k].constant == Some(
                    limb_of(field, k),
                )
            &&& field is None ==> forall|k: int|
                0 <= k < n ==> held_by(t, #[trigger] regs[k], f, m) == 0 as real
        }),
    decreases n,
{
    broadcast use group_follow;

    assert(followed(f, m));
    let from = s.out.len() as int;
    if n == 0 {
        assert(s.out.take(from) =~= s.out);
    } else {
        lemma_limbs(field, (n - 1) as nat, s, f, m);
        let (s1, regs) = field_limbs(field, (n - 1) as nat, s);
        let (t, all) = field_limbs(field, n, s);
        assert(t.out.take(from) =~= s1.out.take(from));
        assert(t.out =~= s1.out.push(t.out.last()));
        assert forall|k: int| 0 <= k < n implies has(t, 1, #[trigger] all[k]) && (field is None
            ==> held_by(t, all[k], f, m) == 0 as real) by {
            if k < n - 1 {
                assert(all[k] == regs[k]);
                assert(has(s1, 1, regs[k]));
                assert(held_by(t, regs[k], f, m) == held_by(s1, regs[k], f, m));
            }
        }
        assert forall|k: int| 0 <= k < n implies (#[trigger] t.out[from + k]).opcode
            == Opcode::Const && t.out[from + k].result_id == all[k] && t.out[from + k].constant
            == Some(limb_of(field, k)) by {
            if k < n - 1 {
                assert(t.out[from + k] == s1.out[from + k]);
            }
        }
    }
}

/// A Poisson solver hands one solver instruction over its field the identifier of its
/// source (zeros without one), the number of sweeps and the factor of the source, in the
/// function of one entity; those of the others do nothing.
pub proof fn law_poisson(
    sys: PoissonSystem,
    entity: u128,
    out: Seq<InstructionView>,
    f: Functions,
    m: Machine,
)
    requires
        follows(out, sys.lowered(entity, out)),
        out.len() + 8 < u32::MAX,
    ensures
        ({
            let code = sys.lowered(entity, out);
            if entity == sys.run_on {
                &&& sweeps(out, code, Opcode::FieldPoisson, sys.field@, sys.width, 6)
                &&& sys.source is Some ==> forall|k: int|
                    0 <= k < 4 ==> #[trigger] names_limb(out, code, k, sys.source->0@)
                &&& sys.source is None ==> forall|k: int|
                    0 <= k < 4 ==> #[trigger] handed(code, k, f, m) == 0 as real
                &&& handed(code, 4, f, m) == sys.iters as real
                &&& handed(code, 5, f, m) == number_of(sys.scale)
            } else {
                idles(out, code)
            }
        }),
{
    let code = sys.lowered(entity, out);
    if entity != sys.run_on {
        assert(code.take(out.len() as int) =~= out);
    } else {
        broadcast use group_follow;

        assert(followed(f, m));
        let source = name_view(sys.source);
        let from = out.len() as int;
        lemma_limbs(source, 4, resumed(out), f, m);
        let (s1, limbs) = field_limbs(source, 4, resumed(out));
        let (s2, n) = const_u64_of(s1, sys.iters as u64);
        let (s3, factor) = const_of(s2, Real::Bits(sys.scale));
        assert(code.take(code.len() - 2) =~= s3.out);
        assert(code.take(from) =~= s1.out.take(from));
        assert(sweep(code).operands =~= limbs.push(n).push(factor));
        assert(held_by(s2, n, f, m) == sys.iters as real);
        assert(held_by(s3, n, f, m) == held_by(s2, n, f, m));
        assert(held_by(s3, factor, f, m) == amount(Real::Bits(sys.scale)));
        assert forall|i: int| from <= i < code.len() - 2 implies (#[trigger] code[i]).opcode
            == Opcode::Const by {
            if i < from + 4 {
                assert(code[i] == s1.out[from + (i - from)]);
            }
        }
        assert forall|k: int| 0 <= k < 4 && sys.source is Some implies #[trigger] names_limb(
            out,
            code,
            k,
            sys.source->0@,
        ) by {
            assert(code[from + k] == s1.out[from + k]);
            assert(sweep(code).operands[k] == limbs[k]);
        }
        assert forall|k: int| 0 <= k < 4 && sys.source is None implies #[trigger] handed(
            code,
            k,
            f,
            m,
        ) == 0 as real by {
            assert(has(s1, 1, limbs[k]));
            assert(held_by(s3, limbs[k], f, m) == held_by(s2, limbs[k], f, m));
            assert(held_by(s2, limbs[k], f, m) == held_by(s1, limbs[k], f, m));
            assert(sweep(code).operands[k] == limbs[k]);
        }
    }
}

/// A wave solver hands one solver instruction over its field the identifier of the field
/// of the step before, the square of the wave speed times the step over the cell size, the
/// amplitude kept, the absorption and its width, in the function of one entity; those of
/// the others do nothing.
pub proof fn law_wave(
    sys: WaveSystem,
    entity: u128,
    out: Seq<InstructionView>,
    f: Functions,
    m: Machine,
)
    requires
        follows(out, sys.lowered(entity, out)),
        out.len() + 10 < u32::MAX,
    ensures
        ({
            let code = sys.lowered(entity, out);
            let courant = number_of(sys.velocity) * number_of(sys.dt) / number_of(sys.dx);
            if entity == sys.run_on {
                &&& sweeps(out, code, Opcode::FieldWave, sys.field@, sys.width, 8)
                &&& forall|k: int|
                    0 <= k < 4 ==> #[trigger] names_limb(out, code, k, sys.prev@)
                &&& handed(code, 4, f, m) == courant * courant
                &&& handed(code, 5, f, m) == number_of(sys.damping)
                &&& handed(code, 6, f, m) == number_of(sys.absorb)
                &&& handed(code, 7, f, m) == sys.absorb_width as real
            } else {
                idles(out, code)
            }
        }),
{
    let code = sys.lowered(entity, out);
    if entity != sys.run_on {
        assert(code.take(out.len() as int) =~= out);
    } else {
        broadcast use group_follow;

        assert(followed(f, m));
        let from = out.len() as int;
        let prev = Some(sys.prev@);
        lemma_limbs(prev, 4, resumed(out), f, m);
        let (s1, limbs) = field_limbs(prev, 4, resumed(out));
        let (s2, cfl) = const_of(
            s1,
            Real::Courant { velocity: sys.velocity, dt: sys.dt, dx: sys.dx },
        );
        let (s3, damping) = const_of(s2, Real::Bits(sys.damping));
        let (s4, absorb) = const_of(s3, Real::Bits(sys.absorb));
        let (s5, cells) = const_of(s4, Real::Nat(sys.absorb_width as u64));
        assert(code.take(code.len() - 2) =~= s5.out);
        assert(code.take(from) =~= s1.out.take(from));
        assert(sweep(code).operands =~= limbs.push(cfl).push(damping).push(absorb).push(cells));
        assert(held_by(s5, cfl, f, m) == held_by(s4, cfl, f, m));
        assert(held_by(s4, cfl, f, m) == held_by(s3, cfl, f, m));
        assert(held_by(s3, cfl, f, m) == held_by(s2, cfl, f, m));
        assert(held_by(s5, damping, f, m) == held_by(s4, damping, f, m));
        assert(held_by(s4, damping, f, m) == held_by(s3, damping, f, m));
        assert(held_by(s5, absorb, f, m) == held_by(s4, absorb, f, m));
        assert(held_by(s5, cells, f, m) == amount(Real::Nat(sys.absorb_width as u64)));
        assert forall|i: int| from <= i < code.len() - 2 implies (#[trigger] code[i]).opcode
            == Opcode::Const by {
            if i < from + 4 {
                assert(code[i] == s1.out[from + (i - from)]);
            }
        }
        assert forall|k: int| 0 <= k < 4 implies #[trigger] names_limb(
            out,
            code,
            k,
            sys.prev@,
        ) by {
            assert(code[from + k] == s1.out[from + k]);
            assert(sweep(code).operands[k] == limbs[k]);
        }
    }
}

proof fn lemma_id_limbs(limbs: Seq<u32>, n: nat, s: Emit, f: Functions, m: Machine)
    requires
        tidy(s, 1),
        n <= limbs.len(),
        1 + s.out.len() + n < u32::MAX,
    ensures
        ({
            let (t, regs) = limb_consts(limbs, n, s);
            &&& tidy(t, 1)
            &&& after(s, t, 1)
            &&& has_all(t, 1, regs)
            &&& regs.len() == n
            &&& t.out.len() == s.out.len() + n
            &&& forall|k: int|
                0 <= k < n ==> held_by(t, #[trigger] regs[k], f, m) == limbs[k] as real
        }),
    decreases n,
{
    broadcast use group_follow;

    assert(followed(f, m));
    if n > 0 {
        lemma_id_limbs(limbs, (n - 1) as nat, s, f, m);
        let (s1, regs) = limb_consts(limbs, (n - 1) as nat, s);
        let (t, all) = limb_consts(limbs, n, s);
        assert forall|k: int| 0 <= k < n implies has(t, 1, #[trigger] all[k]) && held_by(
            t,
            all[k],
            f,
            m,
        ) == limbs[k] as real by {
            if k < n - 1 {
                assert(all[k] == regs[k]);
                assert(has(s1, 1, regs[k]));
                assert(held_by(t, regs[k], f, m) == held_by(s1, regs[k], f, m));
            }
        }
    }
}

proof fn lemma_activated(operands: Seq<u32>, n: nat, entity: u128, s: Emit)
    ensures
        ({
            let t = activations(operands, n, entity, s);
            let from = s.out.len() as int;
            &&& t.out.len() == from + n
            &&& t.out.take(from) == s.out
            &&& forall|j: int|
                0 <= j < n ==> (#[trigger] t.out[from + j]).opcode == Opcode::SpawnInto
                    && t.out[from + j].operands == operands && t.out[from + j].target == Some(
                    slot_of(entity, 0),
                )
        }),
    decreases n,
{
    let from = s.out.len() as int;
    if n == 0 {
        assert(s.out.take(from) =~= s.out);
    } else {
        lemma_activated(operands, (n - 1) as nat, entity, s);
        let s1 = activations(operands, (n - 1) as nat, entity, s);
        let t = activations(operands, n, entity, s);
        assert(t.out.take(from) =~= s1.out.take(from));
        assert forall|j: int| 0 <= j < n implies (#[trigger] t.out[from + j]).opcode
            == Opcode::SpawnInto && t.out[from + j].operands == operands && t.out[from + j].target
            == Some(slot_of(entity, 0)) by {
            if j < n - 1 {
                assert(t.out[from + j] == s1.out[from + j]);
            }
        }
    }
}

/// A spawner without a schedule activates as many slots as it says for each emission, at
/// least one, in the function of its caller: each activation is handed the limbs of the
/// pool's first slot and the number of slots, and copies the caller's state. Other
/// functions do nothing.
pub proof fn law_spawn(
    sys: SpawnSystem,
    entity: u128,
    out: Seq<InstructionView>,
    f: Functions,
    m: Machine,
)
    requires
        follows(out, sys.lowered(entity, out)),
        sys.every is None,
    ensures
        ({
            let code = sys.lowered(entity, out);
            let n = if sys.per_step == 0 {
                1int
            } else {
                sys.per_step as int
            };
            let from = out.len() + 5;
            let regs = run(code.take(from as int), f, m).regs;
            if entity == sys.on {
                &&& code.len() == from + n + 1
                &&& code.last().opcode == Opcode::Return
                &&& forall|j: int|
                    from <= j < from + n ==> {
                        &&& (#[trigger] code[j]).opcode == Opcode::SpawnInto
                        &&& code[j].target == Some(slot_of(entity, 0))
                        &&& code[j].operands.len() == 5
                        &&& forall|k: int|
                            0 <= k < 4 ==> regs[#[trigger] code[j].operands[k]]
                                == sys.limbs@[k] as real
                        &&& regs[code[j].operands[4]] == sys.count as real
                    }
            } else {
                idles(out, code)
            }
        }),
{
    let code = sys.lowered(entity, out);
    if entity != sys.on {
        assert(code.take(out.len() as int) =~= out);
    } else {
        let n = if sys.per_step == 0 {
            1nat
        } else {
            sys.per_step as nat
        };
        let limbs = sys.limbs@;
        assert(limbs.len() == 4);
        let s0 = resumed(out);
        let (s1, ids) = limb_consts(limbs, 4, s0);
        let (s2, count) = const_u64_of(s1, sys.count as u64);
        let operands = ids.push(count);
        lemma_limb_count(limbs, 4, s0);
        lemma_activated(operands, n, entity, s2);
        let t = activations(operands, n, entity, s2);
        assert(code.len() == t.out.len() + 1);
        lemma_id_limbs(limbs, 4, s0, f, m);
        broadcast use group_follow;

        assert(followed(f, m));
        let from = out.len() + 5;
        assert(code.take(from as int) =~= t.out.take(from as int));
        assert(held_by(s2, count, f, m) == sys.count as real);
        assert forall|k: int| 0 <= k < 4 implies held_by(s2, #[trigger] ids[k], f, m)
            == limbs[k] as real by {
            assert(has(s1, 1, ids[k]));
            assert(held_by(s2, ids[k], f, m) == held_by(s1, ids[k], f, m));
        }
        assert forall|j: int| from <= j < from + n implies {
            &&& (#[trigger] code[j]).opcode == Opcode::SpawnInto
            &&& code[j].target == Some(slot_of(entity, 0))
            &&& code[j].operands == operands
        } by {
            assert(code[j] == t.out[from + (j - from)]);
        }
    }
}

proof fn lemma_limb_count(limbs: Seq<u32>, n: nat, s: Emit)
    requires
        n <= limbs.len(),
    ensures
        limb_consts(limbs, n, s).0.out.len() == s.out.len() + n,
    decreases n,
{
    if n > 0 {
        lemma_limb_count(limbs, (n - 1) as nat, s);
    }
}

} // verus!
