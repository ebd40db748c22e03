//! What lowered code computes. Code runs here in exact arithmetic: a double stands for the
//! number that its bits denote, nothing is rounded, and branches fall through.

use crate::double::{below, finite, integer_part, integral, scale, significand, truncated};
use crate::eir::{
    ComponentRefView, ImmediateView, InstructionView, Opcode, Real, ValueType,
};
use crate::emit::{effect_of, result_of, Emit};
use crate::numbering::{
    after, extends, fits, has, has_all, lemma_effect, lemma_result, level, orderly, small, tidy,
};
use crate::sensing::{adds, stores};
use vstd::arithmetic::power2::{lemma_pow2_pos, lemma_pow2_unfold, pow2};
use vstd::prelude::*;

verus! {

/// The functions that exact arithmetic leaves open: the square root, and the value of
/// every instruction that is not arithmetic, by the values of its operands.
pub struct Functions {
    pub root: spec_fn(real) -> real,
    pub other: spec_fn(Opcode, Seq<real>) -> real,
}

/// The registers of a function that runs, and the fields of the world.
pub struct Machine {
    pub regs: Map<u32, real>,
    pub world: Map<ComponentRefView, real>,
}

/// A power of two.
pub open spec fn two_to(n: nat) -> real
    decreases n,
{
    if n == 0 {
        1 as real
    } else {
        2 as real * two_to((n - 1) as nat)
    }
}

/// The magnitude of a finite double: its fraction, with the leading one of a normal
/// number, scaled by its exponent.
pub open spec fn magnitude(bits: u64) -> real {
    let exponent = (bits / 0x10_0000_0000_0000) % 0x800;
    let fraction = bits % 0x10_0000_0000_0000;
    let digits = if exponent == 0 {
        fraction as int
    } else {
        0x10_0000_0000_0000 + fraction
    };
    let scale = if exponent == 0 {
        1
    } else {
        exponent as int
    };
    if scale >= 1075 {
        digits as real * two_to((scale - 1075) as nat)
    } else {
        digits as real / two_to((1075 - scale) as nat)
    }
}

/// The number that the bits of a finite double denote.
pub open spec fn number_of(bits: u64) -> real {
    if bits < 0x8000_0000_0000_0000 {
        magnitude(bits)
    } else {
        -magnitude(bits)
    }
}

/// The number that a constant stands for.
pub open spec fn amount(c: Real) -> real {
    match c {
        Real::Bits(b) => number_of(b),
        Real::Nat(n) => n as real,
        Real::Int(i) => i as real,
        Real::Neg(b) => -number_of(b),
        Real::Product(a, b) => number_of(a) * number_of(b),
        Real::Step { dt, substeps } => number_of(dt) / (substeps as real),
        Real::StepOver { dt, substeps, by } => number_of(dt) / (substeps as real) / (by as real),
        Real::Courant { velocity, dt, dx } => {
            let c = number_of(velocity) * number_of(dt) / number_of(dx);
            c * c
        },
    }
}

/// One for true, zero for false.
pub open spec fn truth(b: bool) -> real {
    if b {
        1 as real
    } else {
        0 as real
    }
}

/// The values of registers.
pub open spec fn values(m: Machine, regs: Seq<u32>) -> Seq<real> {
    regs.map_values(|r: u32| m.regs[r])
}

/// The value of an instruction.
pub open spec fn result(i: InstructionView, f: Functions, m: Machine) -> real {
    let x = m.regs[i.operands[0]];
    let y = m.regs[i.operands[1]];
    let z = m.regs[i.operands[2]];
    match i.opcode {
        Opcode::Const => match i.constant {
            Some(ImmediateView::F64(c)) => amount(c),
            Some(ImmediateView::U64(n)) => n as real,
            _ => 0 as real,
        },
        Opcode::ReadView => match i.target {
            Some(at) => m.world[at],
            None => 0 as real,
        },
        Opcode::Add => x + y,
        Opcode::Sub => x - y,
        Opcode::Mul => x * y,
        Opcode::Div => x / y,
        Opcode::Lt => truth(x < y),
        Opcode::Le => truth(x <= y),
        Opcode::Gt => truth(x > y),
        Opcode::Ge => truth(x >= y),
        Opcode::Eq => truth(x == y),
        Opcode::Ne => truth(x != y),
        Opcode::Select => if x != 0 as real {
            y
        } else {
            z
        },
        Opcode::Abs => if x < 0 as real {
            -x
        } else {
            x
        },
        Opcode::Sqrt => (f.root)(x),
        _ => (f.other)(i.opcode, values(m, i.operands)),
    }
}

/// The machine after an instruction. A result goes to its register, a write to the field
/// that it names.
pub open spec fn perform(i: InstructionView, f: Functions, m: Machine) -> Machine {
    Machine {
        regs: if i.result_type is Some {
            m.regs.insert(i.result_id, result(i, f, m))
        } else {
            m.regs
        },
        world: match (i.opcode, i.target) {
            (Opcode::WriteView, Some(at)) => m.world.insert(at, m.regs[i.operands[0]]),
            _ => m.world,
        },
    }
}

/// The machine after some code.
pub open spec fn run(code: Seq<InstructionView>, f: Functions, m: Machine) -> Machine
    decreases code.len(),
{
    if code.len() == 0 {
        m
    } else {
        perform(code.last(), f, run(code.drop_last(), f, m))
    }
}

/// What a register holds behind the code so far.
pub open spec fn held_by(s: Emit, r: u32, f: Functions, m: Machine) -> real {
    run(s.out, f, m).regs[r]
}

/// Marks a machine whose runs are followed.
pub open spec fn followed(f: Functions, m: Machine) -> bool {
    true
}

pub broadcast proof fn lemma_run_push(
    code: Seq<InstructionView>,
    i: InstructionView,
    f: Functions,
    m: Machine,
)
    ensures
        #[trigger] run(code.push(i), f, m) == perform(i, f, run(code, f, m)),
{
    assert(code.push(i).drop_last() =~= code);
}

proof fn lemma_level_grows(a: Seq<InstructionView>, b: Seq<InstructionView>)
    requires
        extends(a, b),
    ensures
        level(a, 1) <= level(b, 1),
    decreases b.len(),
{
    reveal(extends);
    if b.len() == a.len() {
        assert(a =~= b);
    } else {
        assert(extends(a, b.drop_last()));
        lemma_level_grows(a, b.drop_last());
    }
}

proof fn lemma_code_keeps(
    a: Seq<InstructionView>,
    b: Seq<InstructionView>,
    f: Functions,
    m: Machine,
)
    requires
        extends(a, b),
        orderly(b, 1),
    ensures
        forall|r: u32| r < level(a, 1) ==> run(b, f, m).regs[r] == #[trigger] run(a, f, m).regs[r],
    decreases b.len(),
{
    reveal(extends);
    if b.len() == a.len() {
        assert(a =~= b);
    } else {
        let c = b.drop_last();
        assert(extends(a, c));
        lemma_code_keeps(a, c, f, m);
        lemma_level_grows(a, c);
        assert(fits(b.last(), level(c, 1)));
    }
}

/// Code that follows leaves the registers of the code before it as they are.
pub proof fn lemma_registers_stay(s: Emit, t: Emit, f: Functions, m: Machine)
    requires
        tidy(s, 1),
        tidy(t, 1),
        small(t, 1),
        after(s, t, 1),
    ensures
        forall|r: u32|
            has(s, 1, r) ==> #[trigger] held_by(t, r, f, m) == held_by(s, r, f, m),
{
    reveal(tidy);
    lemma_code_keeps(s.out, t.out, f, m);
    assert forall|r: u32| has(s, 1, r) implies #[trigger] held_by(t, r, f, m) == held_by(
        s,
        r,
        f,
        m,
    ) by {
        assert(run(t.out, f, m).regs[r] == run(s.out, f, m).regs[r]);
    }
}

/// Code that writes no entity leaves the world as it is.
pub proof fn lemma_world_stays(
    a: Seq<InstructionView>,
    b: Seq<InstructionView>,
    f: Functions,
    m: Machine,
)
    requires
        adds(a, b, true, false),
    ensures
        run(b, f, m).world == run(a, f, m).world,
    decreases b.len(),
{
    reveal(adds);
    if b.len() == a.len() {
        assert(a =~= b);
    } else {
        let c = b.drop_last();
        assert(adds(a, c, true, false));
        lemma_world_stays(a, c, f, m);
        assert(!stores(b[b.len() - 1]));
    }
}

/// What an instruction with a result does.
pub broadcast proof fn lemma_follow_result(
    s: Emit,
    opcode: Opcode,
    ty: ValueType,
    operands: Seq<u32>,
    constant: Option<ImmediateView>,
    target: Option<ComponentRefView>,
    f: Functions,
    m: Machine,
)
    requires
        #[trigger] tidy(s, 1),
        has_all(s, 1, operands),
        1 + s.out.len() < u32::MAX,
        opcode != Opcode::WriteView,
        #[trigger] followed(f, m),
    ensures
        ({
            let (t, r) = #[trigger] result_of(s, opcode, ty, operands, constant, target);
            let i = InstructionView {
                opcode,
                result_id: s.next,
                result_type: Some(ty),
                operands,
                constant,
                target,
            };
            &&& tidy(t, 1)
            &&& has(t, 1, r)
            &&& after(s, t, 1)
            &&& t.out.len() == s.out.len() + 1
            &&& held_by(t, r, f, m) == result(i, f, run(s.out, f, m))
            &&& held_by(s, operands[0], f, m) == run(s.out, f, m).regs[operands[0]]
            &&& held_by(s, operands[1], f, m) == run(s.out, f, m).regs[operands[1]]
            &&& held_by(s, operands[2], f, m) == run(s.out, f, m).regs[operands[2]]
            &&& run(t.out, f, m).world == run(s.out, f, m).world
            &&& forall|q: u32|
                has(s, 1, q) ==> #[trigger] held_by(t, q, f, m) == held_by(s, q, f, m)
        }),
{
    let (t, r) = result_of(s, opcode, ty, operands, constant, target);
    lemma_result(s, 1, opcode, ty, operands, constant, target);
    lemma_run_push(s.out, t.out.last(), f, m);
    assert(t.out =~= s.out.push(t.out.last()));
    assert(forall|q: u32| has(s, 1, q) ==> q < s.next);
}

/// What an instruction without a result does.
pub broadcast proof fn lemma_follow_effect(
    s: Emit,
    opcode: Opcode,
    operands: Seq<u32>,
    target: Option<ComponentRefView>,
    f: Functions,
    m: Machine,
)
    requires
        #[trigger] tidy(s, 1),
        has_all(s, 1, operands),
        1 + s.out.len() < u32::MAX,
        #[trigger] followed(f, m),
    ensures
        ({
            let t = #[trigger] effect_of(s, opcode, operands, target);
            &&& tidy(t, 1)
            &&& after(s, t, 1)
            &&& t.out.len() == s.out.len() + 1
            &&& t.next == s.next
            &&& run(t.out, f, m).regs == run(s.out, f, m).regs
            &&& forall|q: u32| #[trigger] held_by(t, q, f, m) == held_by(s, q, f, m)
            &&& run(t.out, f, m).world == (match (opcode, target) {
                (Opcode::WriteView, Some(at)) => run(s.out, f, m).world.insert(
                    at,
                    held_by(s, operands[0], f, m),
                ),
                _ => run(s.out, f, m).world,
            })
        }),
{
    let t = effect_of(s, opcode, operands, target);
    lemma_effect(s, 1, opcode, operands, target);
    lemma_run_push(s.out, t.out.last(), f, m);
    assert(t.out =~= s.out.push(t.out.last()));
}

pub broadcast group group_follow {
    lemma_follow_result,
    lemma_follow_effect,
}

proof fn lemma_two_to_52()
    ensures
        two_to(52) == 0x10_0000_0000_0000int as real,
        two_to(51) == 0x8_0000_0000_0000int as real,
        two_to(53) == 0x20_0000_0000_0000int as real,
{
    reveal_with_fuel(two_to, 54);
}

/// What the constants of lowered code denote.
pub proof fn lemma_numbers()
    ensures
        number_of(0) == 0 as real,
        number_of(0x3FF0_0000_0000_0000) == 1 as real,
        number_of(0x4000_0000_0000_0000) == 2 as real,
        number_of(0xBFF0_0000_0000_0000) == -(1 as real),
        number_of(0x3FE0_0000_0000_0000) == 1 as real / 2 as real,
{
    lemma_two_to_52();
    lemma_positive(1074);
    let digits = 0x10_0000_0000_0000int as real;
    assert(digits / two_to(52) == 1 as real);
    assert(digits / two_to(51) == 2 as real);
    assert(digits / two_to(53) == 1 as real / 2 as real);
    assert(magnitude(0x3FF0_0000_0000_0000) == digits / two_to(52));
    assert(magnitude(0x4000_0000_0000_0000) == digits / two_to(51));
    assert(magnitude(0xBFF0_0000_0000_0000) == digits / two_to(52));
    assert(magnitude(0x3FE0_0000_0000_0000) == digits / two_to(53));
    let t = two_to(1074);
    assert(0 as real / t == 0 as real) by (nonlinear_arith)
        requires
            t > 0 as real,
    ;
}

/// Powers of two are positive.
pub proof fn lemma_positive(n: nat)
    ensures
        two_to(n) > 0 as real,
    decreases n,
{
    if n > 0 {
        lemma_positive((n - 1) as nat);
    }
}

proof fn lemma_two_to_sum(a: nat, b: nat)
    ensures
        two_to(a + b) == two_to(a) * two_to(b),
    decreases b,
{
    if b == 0 {
        assert(two_to(a) * (1 as real) == two_to(a)) by (nonlinear_arith);
    } else {
        lemma_two_to_sum(a, (b - 1) as nat);
        let x = two_to(a);
        let y = two_to((b - 1) as nat);
        assert(two_to(a + b) == 2 as real * two_to((a + b - 1) as nat));
        assert(2 as real * (x * y) == x * (2 as real * y)) by (nonlinear_arith);
    }
}

proof fn lemma_two_to_grows(a: nat, b: nat)
    requires
        a <= b,
    ensures
        two_to(a) <= two_to(b),
    decreases b,
{
    if a < b {
        lemma_two_to_grows(a, (b - 1) as nat);
        lemma_positive((b - 1) as nat);
    }
}

/// The digits of a finite double and the power of two by which they count.
spec fn digits_of(bits: u64) -> (int, nat) {
    let exponent = (bits / 0x10_0000_0000_0000) % 0x800;
    let fraction = bits % 0x10_0000_0000_0000;
    if exponent == 0 {
        (fraction as int, 1)
    } else {
        (0x10_0000_0000_0000 + fraction, exponent as nat)
    }
}

proof fn lemma_magnitude(bits: u64)
    ensures
        magnitude(bits) * two_to(1075) == digits_of(bits).0 as real * two_to(digits_of(bits).1),
{
    let (digits, scale) = digits_of(bits);
    let d = digits as real;
    lemma_positive(1075);
    if scale >= 1075 {
        let k = (scale - 1075) as nat;
        lemma_two_to_sum(k, 1075);
        let x = two_to(k);
        let y = two_to(1075);
        assert(d * x * y == d * (x * y)) by (nonlinear_arith);
    } else {
        let k = (1075 - scale) as nat;
        lemma_two_to_sum(k, scale);
        lemma_positive(k);
        let x = two_to(k);
        let y = two_to(scale);
        assert((d / x) * (x * y) == d * y) by (nonlinear_arith)
            requires
                x > 0 as real,
        ;
    }
}

proof fn lemma_magnitude_grows(a: u64, b: u64)
    requires
        a < b < 0x7FF0_0000_0000_0000,
    ensures
        0 as real <= magnitude(a) < magnitude(b),
{
    lemma_magnitude(a);
    lemma_magnitude(b);
    let (da, sa) = digits_of(a);
    let (db, sb) = digits_of(b);
    let x = two_to(sa);
    let y = two_to(sb);
    let t = two_to(1075);
    lemma_positive(sa);
    lemma_positive(sb);
    lemma_positive(1075);
    let p = da as real;
    let q = db as real;
    assert(a / 0x10_0000_0000_0000 <= b / 0x10_0000_0000_0000 < 0x7FF);
    assert(p * x < q * y) by {
        if sa == sb {
            assert(da < db);
            assert(p * x < q * x) by (nonlinear_arith)
                requires
                    p < q,
                    x > 0 as real,
            ;
        } else {
            assert(sa < sb);
            assert(0 <= da < 0x20_0000_0000_0000 && db >= 0x10_0000_0000_0000);
            lemma_two_to_grows(sa + 1, sb);
            assert(two_to(sa + 1) == 2 as real * x);
            assert(p * x < q * y) by (nonlinear_arith)
                requires
                    p < 0x20_0000_0000_0000int as real,
                    q >= 0x10_0000_0000_0000int as real,
                    x > 0 as real,
                    y >= 2 as real * x,
            ;
        }
    }
    let u = magnitude(a);
    let v = magnitude(b);
    assert(0 as real <= p * x) by (nonlinear_arith)
        requires
            p >= 0 as real,
            x > 0 as real,
    ;
    assert(u < v && 0 as real <= u) by (nonlinear_arith)
        requires
            u * t < v * t,
            0 as real <= u * t,
            t > 0 as real,
    ;
}

proof fn lemma_sign(bits: u64)
    requires
        bits >= 0x8000_0000_0000_0000,
    ensures
        magnitude(bits) == magnitude((bits - 0x8000_0000_0000_0000) as u64),
{
    let low = (bits - 0x8000_0000_0000_0000) as u64;
    assert(bits / 0x10_0000_0000_0000 == low / 0x10_0000_0000_0000 + 0x800);
    assert(bits % 0x10_0000_0000_0000 == low % 0x10_0000_0000_0000);
    assert((bits / 0x10_0000_0000_0000) % 0x800 == (low / 0x10_0000_0000_0000) % 0x800);
}

/// Finite doubles are ordered as the numbers that they denote.
pub proof fn law_doubles_are_in_order(a: u64, b: u64)
    requires
        finite(a),
        finite(b),
    ensures
        below(a, b) <==> number_of(a) < number_of(b),
{
    let x = if a >= 0x8000_0000_0000_0000 {
        (a - 0x8000_0000_0000_0000) as u64
    } else {
        a
    };
    let y = if b >= 0x8000_0000_0000_0000 {
        (b - 0x8000_0000_0000_0000) as u64
    } else {
        b
    };
    if a >= 0x8000_0000_0000_0000 {
        lemma_sign(a);
    }
    if b >= 0x8000_0000_0000_0000 {
        lemma_sign(b);
    }
    assert(x < 0x7FF0_0000_0000_0000 && y < 0x7FF0_0000_0000_0000);
    lemma_numbers();
    assert(magnitude(0) == 0 as real);
    if x < y {
        lemma_magnitude_grows(x, y);
    }
    if y < x {
        lemma_magnitude_grows(y, x);
    }
    if 0 < x {
        lemma_magnitude_grows(0, x);
    }
    if 0 < y {
        lemma_magnitude_grows(0, y);
    }
}

proof fn lemma_pow2_is_two_to(n: nat)
    ensures
        pow2(n) as real == two_to(n),
    decreases n,
{
    if n == 0 {
        vstd::arithmetic::power2::lemma2_to64();
    } else {
        lemma_pow2_unfold(n);
        lemma_pow2_is_two_to((n - 1) as nat);
    }
}

/// Rounding toward zero takes off less than one, and nothing of an integer: the integer
/// part of one is the number itself.
pub proof fn law_rounding_takes_less_than_one(bits: u64)
    requires
        finite(bits),
    ensures
        truncated(bits) as real <= magnitude(bits) < truncated(bits) as real + 1 as real,
        integral(bits) ==> integer_part(bits) as real == number_of(bits),
{
    let s = significand(bits) as int;
    let d = s as real;
    assert(significand(bits) == digits_of(bits).0 && scale(bits) == digits_of(bits).1);
    if scale(bits) >= 1075 {
        let k = (scale(bits) - 1075) as nat;
        lemma_pow2_is_two_to(k);
        let p = pow2(k) as int;
        assert((s * p) as real == s as real * p as real) by (nonlinear_arith);
        assert(truncated(bits) as real == magnitude(bits));
    } else {
        let k = (1075 - scale(bits)) as nat;
        lemma_pow2_is_two_to(k);
        lemma_pow2_pos(k);
        let p = pow2(k) as int;
        let q = s / p;
        let r = s % p;
        vstd::arithmetic::div_mod::lemma_fundamental_div_mod(s, p);
        assert(0 <= r < p && s == p * q + r);
        assert(s as real == p as real * q as real + r as real) by (nonlinear_arith)
            requires
                s == p * q + r,
        ;
        let (x, y, z) = (p as real, q as real, r as real);
        assert(y <= d / x < y + 1 as real && (z == 0 as real ==> d / x == y)) by (nonlinear_arith)
            requires
                d == x * y + z,
                x > 0 as real,
                0 as real <= z < x,
        ;
        assert(magnitude(bits) == d / x);
        assert(truncated(bits) == q);
    }
}

} // verus!
