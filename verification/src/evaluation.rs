//! What expressions mean, and that lowered expressions compute it, in exact arithmetic.

use crate::eir::{ComponentRefView, ComponentView, Opcode, NEG_ONE, ONE, ZERO};
use crate::emit::{
    bits_of, known_of, op_of, padded, read_of, select_bool_of, test_of, truthy_of, Emit,
};
use crate::expr::{ArithOp, ExprView, PropKind, Relation};
use crate::lower::{
    arith_opcode, builtin, callee, lower_builtin, lower_expr_spec, lower_name_spec, lower_range,
    named_slot, parameter, relation_opcode, vector_arity, vector_of, vector_term, Builtin,
};
use crate::meaning::{
    followed, group_follow, held_by, lemma_numbers, lemma_registers_stay, lemma_world_stays,
    number_of, run, truth, values, Functions, Machine,
};
use crate::names::assoc_get;
use crate::numbering::{
    after, group_code, has, has_all, has_some, lemma_padded, small, tidy, yields,
};
use crate::registers::{
    knows, lemma_expr, lemma_knows, lemma_name, lemma_range, lemma_select_bool, lemma_truthy,
};
use crate::scope::{
    entity_of, prop_reg, ref_reg, reg_get, slot_reg, CtxView, Layout, PartsView, ScopeView,
};
use crate::simultaneity::{
    still, lemma_expr as lemma_expr_still, lemma_padded as lemma_padded_still,
    lemma_range as lemma_range_still,
};
use crate::refs::{span, span_all};
use crate::text::find;
use vstd::prelude::*;

verus! {

broadcast use group_code;

/// What a rule can see: the slots of its entity, the locals bound so far, slots and
/// properties of other entities, parameters, and the clock.
pub struct Sight {
    pub slot: spec_fn(usize) -> real,
    pub local: spec_fn(Seq<char>) -> Option<real>,
    pub foreign: spec_fn(u128, usize) -> real,
    pub property: spec_fn(u128, PropKind) -> real,
    pub param: spec_fn(Seq<char>) -> real,
    pub time: real,
}

/// What names stand for: those of the program, and those of the slots of one entity.
pub struct Names {
    pub scope: ScopeView,
    pub layout: Layout,
}

/// The names that a context knows.
pub open spec fn names_of(c: CtxView) -> Names {
    Names { scope: c.parts.scope, layout: c.parts.state_names }
}

/// A context with no registers that knows some names.
pub open spec fn about(d: Names) -> CtxView {
    CtxView {
        parts: PartsView {
            slot_regs: Seq::empty(),
            ref_regs: Seq::empty(),
            prop_regs: Seq::empty(),
            state_names: d.layout,
            scope: d.scope,
            current_entity: 0,
        },
        locals: Seq::empty(),
    }
}

/// The value of a name: a local, else a named slot of the own entity (both for names
/// without a dot), else a parameter, of the own namespace too, else a slot of another
/// entity, and else a parameter that is not declared.
pub open spec fn name_value(name: Seq<char>, d: Names, v: Sight) -> real {
    let dot = find(name, '.');
    let bare = dot == name.len();
    if bare && (v.local)(name) is Some {
        (v.local)(name)->0
    } else if bare && assoc_get(d.layout, name) is Some {
        (v.slot)(assoc_get(d.layout, name)->0)
    } else if parameter(name, about(d)) is Some {
        (v.param)(parameter(name, about(d))->0)
    } else if !bare {
        let id = entity_of(about(d), name.take(dot as int));
        (v.foreign)(
            id,
            match named_slot(name, d.scope.state_names_by_id, id) {
                Some(i) => i,
                None => 0,
            },
        )
    } else {
        (v.param)(name)
    }
}

/// The value of an argument; one that is not given counts as zero.
pub open spec fn argument(vals: Seq<real>, i: int) -> real {
    if 0 <= i < vals.len() {
        vals[i]
    } else {
        0 as real
    }
}

/// The value of a call of a built-in.
pub open spec fn builtin_value(kind: Builtin, vals: Seq<real>, f: Functions) -> real {
    let x = argument(vals, 0);
    let y = argument(vals, 1);
    let z = argument(vals, 2);
    let p = argument(vals, 3);
    let q = argument(vals, 4);
    let r = argument(vals, 5);
    match kind {
        Builtin::If => if x != 0 as real {
            y
        } else {
            z
        },
        Builtin::Extremum(Opcode::Lt) => if x < y {
            x
        } else {
            y
        },
        Builtin::Extremum(Opcode::Gt) => if x > y {
            x
        } else {
            y
        },
        Builtin::VectorLength => (f.root)(x * x + y * y + z * z),
        Builtin::VectorDot => x * p + y * q + z * r,
        Builtin::VectorDistance => (f.root)(
            (x - p) * (x - p) + (y - q) * (y - q) + (z - r) * (z - r),
        ),
        Builtin::Plain(Opcode::Sqrt) => (f.root)(vals[0]),
        Builtin::Plain(Opcode::Abs) => if vals[0] < 0 as real {
            -vals[0]
        } else {
            vals[0]
        },
        Builtin::Plain(op) => (f.other)(op, vals),
        _ => 0 as real,
    }
}

/// Whether a built-in is a function of its arguments.
pub open spec fn functional(kind: Builtin, args: nat) -> bool {
    match kind {
        Builtin::If => true,
        Builtin::Extremum(op) => op == Opcode::Lt || op == Opcode::Gt,
        Builtin::VectorLength | Builtin::VectorDot | Builtin::VectorDistance => true,
        Builtin::Plain(op) => match op {
            Opcode::Sqrt | Opcode::Abs => args == 1,
            Opcode::Sin
            | Opcode::Cos
            | Opcode::Exp
            | Opcode::Ln
            | Opcode::Pow
            | Opcode::Floor
            | Opcode::Ceil
            | Opcode::Round
            | Opcode::Sign
            | Opcode::Log10
            | Opcode::Log2
            | Opcode::Sinh
            | Opcode::Cosh
            | Opcode::Tanh
            | Opcode::Asin
            | Opcode::Acos
            | Opcode::Atan
            | Opcode::Atan2
            | Opcode::Hypot => true,
            _ => false,
        },
        _ => false,
    }
}

/// Whether an expression is a function of what the rule sees: it draws no random number,
/// asks nothing of the event schedule, of neighbours or of grid fields, computes no slot
/// number, and calls no declared function.
pub open spec fn plain(e: ExprView, d: Names) -> bool
    decreases e,
{
    match e {
        ExprView::SlotDyn(_) => false,
        ExprView::Neg(x) | ExprView::Not(x) => plain(*x, d),
        ExprView::Arith(_, a, b) | ExprView::Compare(_, a, b) => plain(*a, d) && plain(*b, d),
        ExprView::And(a, b) | ExprView::Or(a, b) => plain(*a, d) && plain(*b, d),
        ExprView::Call(name, args) => {
            &&& callee(name, about(d)) is None
            &&& functional(builtin(name), args.len())
            &&& forall|i: int| 0 <= i < args.len() ==> plain(#[trigger] args[i], d)
        },
        _ => true,
    }
}

/// The value of an expression.
pub open spec fn value(e: ExprView, d: Names, v: Sight, f: Functions) -> real
    decreases e, 0nat,
{
    match e {
        ExprView::Const(bits) => number_of(bits),
        ExprView::Slot(i) => (v.slot)(i),
        ExprView::Time => v.time,
        ExprView::Ref(name, slot) => (v.foreign)(entity_of(about(d), name), slot),
        ExprView::PropRef(name, kind) => (v.property)(entity_of(about(d), name), kind),
        ExprView::Name(name) => name_value(name, d, v),
        ExprView::Neg(x) => -value(*x, d, v, f),
        ExprView::Not(x) => truth(value(*x, d, v, f) == 0 as real),
        ExprView::Arith(op, a, b) => {
            let x = value(*a, d, v, f);
            let y = value(*b, d, v, f);
            match op {
                ArithOp::Add => x + y,
                ArithOp::Sub => x - y,
                ArithOp::Mul => x * y,
                ArithOp::Div => x / y,
                ArithOp::Rem => (f.other)(Opcode::Rem, seq![x, y]),
            }
        },
        ExprView::Compare(op, a, b) => {
            let x = value(*a, d, v, f);
            let y = value(*b, d, v, f);
            truth(
                match op {
                    Relation::Lt => x < y,
                    Relation::Le => x <= y,
                    Relation::Gt => x > y,
                    Relation::Ge => x >= y,
                    Relation::Eq => x == y,
                    Relation::Ne => x != y,
                },
            )
        },
        ExprView::And(a, b) => truth(
            value(*a, d, v, f) != 0 as real && value(*b, d, v, f) != 0 as real,
        ),
        ExprView::Or(a, b) => truth(
            value(*a, d, v, f) != 0 as real || value(*b, d, v, f) != 0 as real,
        ),
        ExprView::Call(name, args) => builtin_value(
            builtin(name),
            argument_values(args, args.len(), d, v, f),
            f,
        ),
        ExprView::SlotDyn(_) => 0 as real,
    }
}

/// What a register stands for: register zero for zero.
pub open spec fn read_by(s: Emit, r: u32, f: Functions, m: Machine) -> real {
    if r == 0 {
        0 as real
    } else {
        held_by(s, r, f, m)
    }
}

/// Whether the registers of a context, and the world, hold what a rule sees.
pub open spec fn shows(v: Sight, c: CtxView, s: Emit, f: Functions, m: Machine) -> bool {
    let w = run(s.out, f, m).world;
    &&& forall|i: usize| (v.slot)(i) == read_by(s, #[trigger] slot_reg(c, i), f, m)
    &&& forall|name: Seq<char>|
        (v.local)(name) == (match #[trigger] assoc_get(c.locals, name) {
            Some(r) => Some(held_by(s, r, f, m)),
            None => None,
        })
    &&& forall|id: u128, slot: usize|
        (v.foreign)(id, slot) == read_by(s, #[trigger] ref_reg(c, id, slot), f, m)
    &&& forall|id: u128, kind: PropKind|
        (v.property)(id, kind) == read_by(s, #[trigger] prop_reg(c, id, kind), f, m)
    &&& forall|name: Seq<char>|
        (#[trigger] (v.param)(name)) == w[ComponentRefView {
            entity: 0,
            component: ComponentView::Param(name),
            offset: 0,
        }]
    &&& v.time == w[ComponentRefView { entity: 0, component: ComponentView::SimTime, offset: 0 }]
}

/// What a rule sees stays, over code that only computes.
pub proof fn lemma_shows(v: Sight, c: CtxView, s: Emit, t: Emit, f: Functions, m: Machine)
    requires
        shows(v, c, s, f, m),
        knows(c, s, 1),
        tidy(s, 1),
        tidy(t, 1),
        small(t, 1),
        after(s, t, 1),
        still(s, t),
    ensures
        shows(v, c, t, f, m),
{
    lemma_registers_stay(s, t, f, m);
    lemma_world_stays(s.out, t.out, f, m);
    assert forall|i: usize| (v.slot)(i) == read_by(t, #[trigger] slot_reg(c, i), f, m) by {
        let r = slot_reg(c, i);
        if i < c.parts.slot_regs.len() {
            assert(has(s, 1, c.parts.slot_regs[i as int]));
            assert(held_by(t, r, f, m) == held_by(s, r, f, m));
        }
    }
    assert forall|name: Seq<char>|
        (v.local)(name) == (match #[trigger] assoc_get(c.locals, name) {
            Some(r) => Some(held_by(t, r, f, m)),
            None => None,
        }) by {
        assert(has_some(s, 1, assoc_get(c.locals, name)));
        if let Some(r) = assoc_get(c.locals, name) {
            assert(held_by(t, r, f, m) == held_by(s, r, f, m));
        }
    }
    assert forall|id: u128, slot: usize|
        (v.foreign)(id, slot) == read_by(t, #[trigger] ref_reg(c, id, slot), f, m) by {
        assert(has_some(s, 1, reg_get(c.parts.ref_regs, id, PropKind::State(slot))));
        assert(held_by(t, ref_reg(c, id, slot), f, m) == held_by(s, ref_reg(c, id, slot), f, m)
            || ref_reg(c, id, slot) == 0);
    }
    assert forall|id: u128, kind: PropKind|
        (v.property)(id, kind) == read_by(t, #[trigger] prop_reg(c, id, kind), f, m) by {
        assert(has_some(s, 1, reg_get(c.parts.prop_regs, id, kind)));
        assert(held_by(t, prop_reg(c, id, kind), f, m) == held_by(s, prop_reg(c, id, kind), f, m)
            || prop_reg(c, id, kind) == 0);
    }
}

/// A register that was not read counts as zero.
pub proof fn lemma_known_value(s: Emit, r: u32, f: Functions, m: Machine)
    requires
        tidy(s, 1),
        r == 0 || has(s, 1, r),
        1 + s.out.len() < u32::MAX,
    ensures
        held_by(known_of(s, r).0, known_of(s, r).1, f, m) == read_by(s, r, f, m),
        known_of(s, r).0.out.len() <= s.out.len() + 1,
        run(known_of(s, r).0.out, f, m).world == run(s.out, f, m).world,
{
    broadcast use group_follow;

    assert(followed(f, m));
    lemma_numbers();
}

/// Whether a lowered expression holds a value, and nothing else is disturbed.
pub open spec fn computes(s: Emit, done: (Emit, u32), x: real, f: Functions, m: Machine) -> bool {
    &&& yields(s, done, 1)
    &&& still(s, done.0)
    &&& held_by(done.0, done.1, f, m) == x
}

/// Whether registers hold values.
pub open spec fn hold(s: Emit, regs: Seq<u32>, vals: Seq<real>, f: Functions, m: Machine) -> bool {
    regs.len() == vals.len() && forall|i: int|
        0 <= i < regs.len() ==> held_by(s, #[trigger] regs[i], f, m) == vals[i]
}

proof fn lemma_hold_stays(
    s: Emit,
    t: Emit,
    regs: Seq<u32>,
    vals: Seq<real>,
    f: Functions,
    m: Machine,
)
    requires
        hold(s, regs, vals, f, m),
        has_all(s, 1, regs),
        tidy(s, 1),
        tidy(t, 1),
        small(t, 1),
        after(s, t, 1),
    ensures
        hold(t, regs, vals, f, m),
{
    lemma_registers_stay(s, t, f, m);
    assert forall|i: int| 0 <= i < regs.len() implies held_by(t, #[trigger] regs[i], f, m)
        == vals[i] by {
        assert(has(s, 1, regs[i]));
        assert(held_by(t, regs[i], f, m) == held_by(s, regs[i], f, m));
    }
}

/// The values of the first arguments of a call.
pub open spec fn argument_values(
    args: Seq<ExprView>,
    n: nat,
    d: Names,
    v: Sight,
    f: Functions,
) -> Seq<real>
    decreases args, n,
{
    if n == 0 || n > args.len() {
        Seq::empty()
    } else {
        argument_values(args, (n - 1) as nat, d, v, f).push(value(args[n - 1], d, v, f))
    }
}

proof fn lemma_arguments_agree(
    args: Seq<ExprView>,
    n: nat,
    k: nat,
    d: Names,
    v: Sight,
    f: Functions,
)
    requires
        k <= n <= args.len(),
    ensures
        argument_values(args, n, d, v, f).len() == n,
        argument_values(args, k, d, v, f).len() == k,
        forall|i: int|
            0 <= i < k ==> #[trigger] argument_values(args, n, d, v, f)[i] == argument_values(
                args,
                k,
                d,
                v,
                f,
            )[i],
    decreases n,
{
    if n > k {
        lemma_arguments_agree(args, (n - 1) as nat, k, d, v, f);
    } else if n > 0 {
        lemma_arguments_agree(args, (n - 1) as nat, (n - 1) as nat, d, v, f);
    }
}

proof fn lemma_range_value(
    args: Seq<ExprView>,
    n: nat,
    c: CtxView,
    s: Emit,
    v: Sight,
    f: Functions,
    m: Machine,
)
    requires
        tidy(s, 1),
        knows(c, s, 1),
        shows(v, c, s, f, m),
        n <= args.len(),
        forall|i: int| 0 <= i < args.len() ==> plain(#[trigger] args[i], names_of(c)),
        1 + lower_range(args, 0, n, c, s).0.out.len() < u32::MAX,
    ensures
        ({
            let (t, regs) = lower_range(args, 0, n, c, s);
            &&& tidy(t, 1)
            &&& has_all(t, 1, regs)
            &&& after(s, t, 1)
            &&& still(s, t)
            &&& hold(t, regs, argument_values(args, n, names_of(c), v, f), f, m)
        }),
    decreases args, 0nat, n,
{
    lemma_range(args, 0, n, c, s, 1);
    lemma_range_still(args, 0, n, c, s);
    if n > 0 {
        let (s1, regs) = lower_range(args, 0, (n - 1) as nat, c, s);
        lemma_range(args, 0, (n - 1) as nat, c, s, 1);
        lemma_range_still(args, 0, (n - 1) as nat, c, s);
        lemma_knows(c, s, s1, 1);
        lemma_expr(args[n - 1], c, s1, 1);
        let (t, r) = lower_expr_spec(args[n - 1], c, s1);
        assert(s1.out.len() <= t.out.len());
        lemma_range_value(args, (n - 1) as nat, c, s, v, f, m);
        lemma_shows(v, c, s, s1, f, m);
        lemma_value(args[n - 1], c, s1, v, f, m);
        lemma_hold_stays(s1, t, regs, argument_values(args, (n - 1) as nat, names_of(c), v, f), f, m);
        let all = argument_values(args, n, names_of(c), v, f);
        lemma_arguments_agree(args, n, (n - 1) as nat, names_of(c), v, f);
        assert forall|i: int| 0 <= i < n implies held_by(t, #[trigger] regs.push(r)[i], f, m)
            == all[i] by {
            if i < n - 1 {
                assert(held_by(t, regs[i], f, m) == argument_values(
                    args,
                    (n - 1) as nat,
                    names_of(c),
                    v,
                    f,
                )[i]);
            }
        }
    }
}

proof fn lemma_padded_value(
    s: Emit,
    regs: Seq<u32>,
    vals: Seq<real>,
    n: nat,
    f: Functions,
    m: Machine,
)
    requires
        tidy(s, 1),
        has_all(s, 1, regs),
        hold(s, regs, vals, f, m),
        1 + padded(s, regs, n).0.out.len() < u32::MAX,
    ensures
        ({
            let (t, all) = padded(s, regs, n);
            &&& tidy(t, 1)
            &&& has_all(t, 1, all)
            &&& all.len() >= n
            &&& after(s, t, 1)
            &&& still(s, t)
            &&& forall|i: int|
                0 <= i < all.len() ==> held_by(t, #[trigger] all[i], f, m) == argument(vals, i)
        }),
    decreases n - regs.len(),
{
    lemma_padded(s, 1, regs, n);
    lemma_padded_still(s, regs, n);
    if regs.len() < n {
        let (s1, zero) = bits_of(s, ZERO);
        lemma_padded_grows(s1, regs.push(zero), n);
        assert(tidy(s1, 1) && has(s1, 1, zero) && after(s, s1, 1) && held_by(s1, zero, f, m)
            == 0 as real) by {
            broadcast use group_follow;

            assert(followed(f, m));
            lemma_numbers();
        }
        lemma_hold_stays(s, s1, regs, vals, f, m);
        let more = vals.push(0 as real);
        assert(hold(s1, regs.push(zero), more, f, m)) by {
            assert forall|i: int| 0 <= i < regs.push(zero).len() implies held_by(
                s1,
                #[trigger] regs.push(zero)[i],
                f,
                m,
            ) == more[i] by {
                if i < regs.len() {
                    assert(held_by(s1, regs[i], f, m) == vals[i]);
                }
            }
        }
        assert forall|i: int| 0 <= i < regs.push(zero).len() implies has(
            s1,
            1,
            #[trigger] regs.push(zero)[i],
        ) by {
            if i < regs.len() {
                assert(has(s, 1, regs[i]));
            }
        }
        lemma_padded_value(s1, regs.push(zero), more, n, f, m);
        let (t, all) = padded(s, regs, n);
        assert forall|i: int| 0 <= i < all.len() implies held_by(t, #[trigger] all[i], f, m)
            == argument(vals, i) by {
            assert(held_by(t, all[i], f, m) == argument(more, i));
        }
    } else {
        assert forall|i: int| 0 <= i < regs.len() implies held_by(s, #[trigger] regs[i], f, m)
            == argument(vals, i) by {
        }
    }
}

proof fn lemma_padded_grows(s: Emit, regs: Seq<u32>, n: nat)
    ensures
        s.out.len() <= padded(s, regs, n).0.out.len(),
    decreases n - regs.len(),
{
    if regs.len() < n {
        let (s1, zero) = bits_of(s, ZERO);
        lemma_padded_grows(s1, regs.push(zero), n);
    }
}

pub proof fn lemma_truthy_value(s: Emit, r: u32, f: Functions, m: Machine)
    requires
        tidy(s, 1),
        has(s, 1, r),
        s.out.len() + 6 < u32::MAX,
    ensures
        computes(s, truthy_of(s, r), truth(held_by(s, r, f, m) != 0 as real), f, m),
        truthy_of(s, r).0.out.len() == s.out.len() + 5,
{
    lemma_truthy(s, r, 1);
    assert(still(s, truthy_of(s, r).0)) by {
        broadcast use crate::sensing::group_sensing;

    }
    broadcast use group_follow;

    assert(followed(f, m));
    lemma_numbers();
    let (s1, zero) = bits_of(s, ZERO);
    let (s2, cond) = test_of(s1, Opcode::Ne, seq![r, zero]);
    let (s3, one) = bits_of(s2, ONE);
    let (s4, zero2) = bits_of(s3, ZERO);
    let (s5, t) = op_of(s4, Opcode::Select, seq![cond, one, zero2]);
    assert(held_by(s2, cond, f, m) == truth(held_by(s, r, f, m) != 0 as real));
    assert(held_by(s3, one, f, m) == 1 as real);
    assert(held_by(s4, zero2, f, m) == 0 as real);
}

pub proof fn lemma_select_bool_value(s: Emit, cond: u32, b: bool, f: Functions, m: Machine)
    requires
        tidy(s, 1),
        has(s, 1, cond),
        held_by(s, cond, f, m) == truth(b),
        s.out.len() + 4 < u32::MAX,
    ensures
        computes(s, select_bool_of(s, cond), truth(b), f, m),
{
    lemma_select_bool(s, cond, 1);
    assert(still(s, select_bool_of(s, cond).0)) by {
        broadcast use crate::sensing::group_sensing;

    }
    broadcast use group_follow;

    assert(followed(f, m));
    lemma_numbers();
    let (s3, one) = bits_of(s, ONE);
    let (s4, zero2) = bits_of(s3, ZERO);
    assert(held_by(s3, one, f, m) == 1 as real);
    assert(held_by(s4, zero2, f, m) == 0 as real);
}

proof fn lemma_name_value(
    name: Seq<char>,
    c: CtxView,
    s: Emit,
    v: Sight,
    f: Functions,
    m: Machine,
)
    requires
        tidy(s, 1),
        knows(c, s, 1),
        shows(v, c, s, f, m),
        1 + lower_name_spec(name, c, s).0.out.len() < u32::MAX,
    ensures
        held_by(lower_name_spec(name, c, s).0, lower_name_spec(name, c, s).1, f, m) == name_value(
            name,
            names_of(c),
            v,
        ),
{
    lemma_name(name, c, s, 1);
    let dot = find(name, '.');
    let bare = dot == name.len();
    if bare && assoc_get(c.locals, name) is Some {
    } else if bare && assoc_get(c.parts.state_names, name) is Some {
        let i = assoc_get(c.parts.state_names, name)->0;
        lemma_own_slot(i, c, s, v, f, m);
    } else if parameter(name, c) is Some {
        lemma_param(parameter(name, c)->0, c, s, v, f, m);
    } else if !bare {
        let id = entity_of(c, name.take(dot as int));
        let slot = match named_slot(name, c.parts.scope.state_names_by_id, id) {
            Some(i) => i,
            None => 0,
        };
        assert(has_some(s, 1, reg_get(c.parts.ref_regs, id, PropKind::State(slot))));
        lemma_known_value(s, ref_reg(c, id, slot), f, m);
    } else {
        lemma_param(name, c, s, v, f, m);
    }
}

proof fn lemma_param(p: Seq<char>, c: CtxView, s: Emit, v: Sight, f: Functions, m: Machine)
    requires
        tidy(s, 1),
        shows(v, c, s, f, m),
        1 + s.out.len() < u32::MAX,
    ensures
        ({
            let (t, r) = read_of(s, 0, ComponentView::Param(p), 0);
            held_by(t, r, f, m) == (v.param)(p)
        }),
{
    broadcast use group_follow;

    assert(followed(f, m));
}

proof fn lemma_own_slot(i: usize, c: CtxView, s: Emit, v: Sight, f: Functions, m: Machine)
    requires
        tidy(s, 1),
        knows(c, s, 1),
        shows(v, c, s, f, m),
        1 + s.out.len() < u32::MAX,
    ensures
        ({
            let (t, r) = known_of(s, slot_reg(c, i));
            held_by(t, r, f, m) == (v.slot)(i)
        }),
{
    if i < c.parts.slot_regs.len() {
        assert(has(s, 1, c.parts.slot_regs[i as int]));
    }
    lemma_known_value(s, slot_reg(c, i), f, m);
}

proof fn lemma_two(
    a: ExprView,
    b: ExprView,
    c: CtxView,
    s: Emit,
    v: Sight,
    f: Functions,
    m: Machine,
)
    requires
        tidy(s, 1),
        knows(c, s, 1),
        ({
            let (s1, ra) = lower_expr_spec(a, c, s);
            let (s2, rb) = lower_expr_spec(b, c, s1);
            &&& 1 + s2.out.len() < u32::MAX
            &&& computes(s, (s1, ra), value(a, names_of(c), v, f), f, m)
            &&& computes(s1, (s2, rb), value(b, names_of(c), v, f), f, m)
        }),
    ensures
        ({
            let (s1, ra) = lower_expr_spec(a, c, s);
            let (s2, rb) = lower_expr_spec(b, c, s1);
            &&& tidy(s2, 1)
            &&& has(s2, 1, ra)
            &&& has(s2, 1, rb)
            &&& after(s, s2, 1)
            &&& held_by(s2, ra, f, m) == value(a, names_of(c), v, f)
            &&& held_by(s2, rb, f, m) == value(b, names_of(c), v, f)
        }),
{
    let (s1, ra) = lower_expr_spec(a, c, s);
    let (s2, rb) = lower_expr_spec(b, c, s1);
    lemma_registers_stay(s1, s2, f, m);
    assert(held_by(s2, ra, f, m) == held_by(s1, ra, f, m));
}

proof fn lemma_arith_value(
    op: ArithOp,
    s: Emit,
    ra: u32,
    rb: u32,
    f: Functions,
    m: Machine,
)
    requires
        tidy(s, 1),
        has(s, 1, ra),
        has(s, 1, rb),
        1 + s.out.len() < u32::MAX,
    ensures
        ({
            let (t, r) = op_of(s, arith_opcode(op), seq![ra, rb]);
            let x = held_by(s, ra, f, m);
            let y = held_by(s, rb, f, m);
            held_by(t, r, f, m) == (match op {
                ArithOp::Add => x + y,
                ArithOp::Sub => x - y,
                ArithOp::Mul => x * y,
                ArithOp::Div => x / y,
                ArithOp::Rem => (f.other)(Opcode::Rem, seq![x, y]),
            })
        }),
{
    broadcast use group_follow;

    assert(followed(f, m));
    let x = held_by(s, ra, f, m);
    let y = held_by(s, rb, f, m);
    assert(values(run(s.out, f, m), seq![ra, rb]) =~= seq![x, y]);
}

proof fn lemma_logic_value(
    s: Emit,
    ra: u32,
    rb: u32,
    f: Functions,
    m: Machine,
)
    requires
        tidy(s, 1),
        has(s, 1, ra),
        has(s, 1, rb),
        s.out.len() + 12 < u32::MAX,
    ensures
        ({
            let (s1, na) = truthy_of(s, ra);
            let (s2, nb) = truthy_of(s1, rb);
            let (t, r) = op_of(s2, Opcode::Mul, seq![na, nb]);
            let x = held_by(s, ra, f, m) != 0 as real;
            let y = held_by(s, rb, f, m) != 0 as real;
            &&& tidy(s2, 1)
            &&& has(s2, 1, na)
            &&& has(s2, 1, nb)
            &&& s2.out.len() == s.out.len() + 10
            &&& held_by(s2, na, f, m) == truth(x)
            &&& held_by(s2, nb, f, m) == truth(y)
            &&& held_by(t, r, f, m) == truth(x && y)
        }),
{
    let (s1, na) = truthy_of(s, ra);
    let (s2, nb) = truthy_of(s1, rb);
    lemma_truthy_value(s, ra, f, m);
    lemma_registers_stay(s, s1, f, m);
    assert(held_by(s1, rb, f, m) == held_by(s, rb, f, m));
    lemma_truthy_value(s1, rb, f, m);
    lemma_registers_stay(s1, s2, f, m);
    assert(held_by(s2, na, f, m) == held_by(s1, na, f, m));
    broadcast use group_follow;

    assert(followed(f, m));
}

proof fn lemma_or_value(s: Emit, na: u32, nb: u32, x: bool, y: bool, f: Functions, m: Machine)
    requires
        tidy(s, 1),
        has(s, 1, na),
        has(s, 1, nb),
        s.out.len() + 6 < u32::MAX,
        held_by(s, na, f, m) == truth(x),
        held_by(s, nb, f, m) == truth(y),
    ensures
        ({
            let (s1, one) = bits_of(s, ONE);
            let (s2, not_a) = op_of(s1, Opcode::Sub, seq![one, na]);
            let (s3, not_b) = op_of(s2, Opcode::Sub, seq![one, nb]);
            let (s4, neither) = op_of(s3, Opcode::Mul, seq![not_a, not_b]);
            let (t, r) = op_of(s4, Opcode::Sub, seq![one, neither]);
            held_by(t, r, f, m) == truth(x || y)
        }),
{
    broadcast use group_follow;

    assert(followed(f, m));
    lemma_numbers();
    let (s1, one) = bits_of(s, ONE);
    assert(held_by(s1, one, f, m) == 1 as real);
    let (s2, not_a) = op_of(s1, Opcode::Sub, seq![one, na]);
    assert(held_by(s2, not_a, f, m) == 1 as real - truth(x));
    let (s3, not_b) = op_of(s2, Opcode::Sub, seq![one, nb]);
    assert(held_by(s3, not_b, f, m) == 1 as real - truth(y));
    let (s4, neither) = op_of(s3, Opcode::Mul, seq![not_a, not_b]);
    let p = 1 as real - truth(x);
    let q = 1 as real - truth(y);
    assert(p * q == truth(!x && !y)) by {
        if x {
            assert(p * q == 0 as real) by (nonlinear_arith)
                requires
                    p == 0 as real,
            ;
        } else if y {
            assert(p * q == 0 as real) by (nonlinear_arith)
                requires
                    q == 0 as real,
            ;
        } else {
            assert(p * q == 1 as real) by (nonlinear_arith)
                requires
                    p == 1 as real,
                    q == 1 as real,
            ;
        }
    }
    assert(held_by(s4, neither, f, m) == p * q);
}

proof fn lemma_neg_value(s: Emit, rx: u32, f: Functions, m: Machine)
    requires
        tidy(s, 1),
        has(s, 1, rx),
        s.out.len() + 3 < u32::MAX,
    ensures
        ({
            let (s1, neg_one) = bits_of(s, NEG_ONE);
            let (t, r) = op_of(s1, Opcode::Mul, seq![rx, neg_one]);
            held_by(t, r, f, m) == -held_by(s, rx, f, m)
        }),
{
    let y = held_by(s, rx, f, m);
    assert(y * -(1 as real) == -y) by (nonlinear_arith);
    broadcast use group_follow;

    assert(followed(f, m));
    lemma_numbers();
    let (s1, neg_one) = bits_of(s, NEG_ONE);
    assert(held_by(s1, rx, f, m) == y);
}

proof fn lemma_not_value(s: Emit, ra: u32, f: Functions, m: Machine)
    requires
        tidy(s, 1),
        has(s, 1, ra),
        s.out.len() + 6 < u32::MAX,
    ensures
        ({
            let (s1, zero) = bits_of(s, ZERO);
            let (s2, cond) = test_of(s1, Opcode::Eq, seq![ra, zero]);
            let (t, r) = select_bool_of(s2, cond);
            held_by(t, r, f, m) == truth(held_by(s, ra, f, m) == 0 as real)
        }),
{
    let (s1, zero) = bits_of(s, ZERO);
    let (s2, cond) = test_of(s1, Opcode::Eq, seq![ra, zero]);
    assert(tidy(s2, 1) && has(s2, 1, cond) && s2.out.len() == s.out.len() + 2 && held_by(
        s2,
        cond,
        f,
        m,
    ) == truth(held_by(s, ra, f, m) == 0 as real)) by {
        broadcast use group_follow;

        assert(followed(f, m));
        lemma_numbers();
    }
    lemma_select_bool_value(s2, cond, held_by(s, ra, f, m) == 0 as real, f, m);
}

proof fn lemma_compare_value(
    op: Relation,
    s: Emit,
    ra: u32,
    rb: u32,
    f: Functions,
    m: Machine,
)
    requires
        tidy(s, 1),
        has(s, 1, ra),
        has(s, 1, rb),
        s.out.len() + 5 < u32::MAX,
    ensures
        ({
            let (s1, cond) = test_of(s, relation_opcode(op), seq![ra, rb]);
            let (t, r) = select_bool_of(s1, cond);
            let x = held_by(s, ra, f, m);
            let y = held_by(s, rb, f, m);
            held_by(t, r, f, m) == truth(
                match op {
                    Relation::Lt => x < y,
                    Relation::Le => x <= y,
                    Relation::Gt => x > y,
                    Relation::Ge => x >= y,
                    Relation::Eq => x == y,
                    Relation::Ne => x != y,
                },
            )
        }),
{
    let (s1, cond) = test_of(s, relation_opcode(op), seq![ra, rb]);
    let x = held_by(s, ra, f, m);
    let y = held_by(s, rb, f, m);
    let is = match op {
        Relation::Lt => x < y,
        Relation::Le => x <= y,
        Relation::Gt => x > y,
        Relation::Ge => x >= y,
        Relation::Eq => x == y,
        Relation::Ne => x != y,
    };
    assert(tidy(s1, 1) && has(s1, 1, cond) && s1.out.len() == s.out.len() + 1 && held_by(
        s1,
        cond,
        f,
        m,
    ) == truth(is)) by {
        broadcast use group_follow;

        assert(followed(f, m));
    }
    lemma_select_bool_value(s1, cond, is, f, m);
}

proof fn lemma_either_value(s: Emit, ra: u32, rb: u32, f: Functions, m: Machine)
    requires
        tidy(s, 1),
        has(s, 1, ra),
        has(s, 1, rb),
        s.out.len() + 16 < u32::MAX,
    ensures
        ({
            let (s1, na) = truthy_of(s, ra);
            let (s2, nb) = truthy_of(s1, rb);
            let (s3, one) = bits_of(s2, ONE);
            let (s4, not_a) = op_of(s3, Opcode::Sub, seq![one, na]);
            let (s5, not_b) = op_of(s4, Opcode::Sub, seq![one, nb]);
            let (s6, neither) = op_of(s5, Opcode::Mul, seq![not_a, not_b]);
            let (t, r) = op_of(s6, Opcode::Sub, seq![one, neither]);
            held_by(t, r, f, m) == truth(
                held_by(s, ra, f, m) != 0 as real || held_by(s, rb, f, m) != 0 as real,
            )
        }),
{
    lemma_logic_value(s, ra, rb, f, m);
    let (s1, na) = truthy_of(s, ra);
    let (s2, nb) = truthy_of(s1, rb);
    lemma_or_value(
        s2,
        na,
        nb,
        held_by(s, ra, f, m) != 0 as real,
        held_by(s, rb, f, m) != 0 as real,
        f,
        m,
    );
}

proof fn lemma_both_len(e: ExprView, a: ExprView, b: ExprView, c: CtxView, s: Emit)
    requires
        e == ExprView::And(Box::new(a), Box::new(b)),
    ensures
        lower_expr_spec(e, c, s).0.out.len() == lower_expr_spec(
            b,
            c,
            lower_expr_spec(a, c, s).0,
        ).0.out.len() + 11,
{
}

proof fn lemma_either_len(e: ExprView, a: ExprView, b: ExprView, c: CtxView, s: Emit)
    requires
        e == ExprView::Or(Box::new(a), Box::new(b)),
    ensures
        lower_expr_spec(e, c, s).0.out.len() == lower_expr_spec(
            b,
            c,
            lower_expr_spec(a, c, s).0,
        ).0.out.len() + 15,
{
}

/// A lowered expression computes the value of the expression, whatever it is built from.
#[verifier::rlimit(60)]
pub proof fn lemma_value(
    e: ExprView,
    c: CtxView,
    s: Emit,
    v: Sight,
    f: Functions,
    m: Machine,
)
    requires
        tidy(s, 1),
        knows(c, s, 1),
        shows(v, c, s, f, m),
        plain(e, names_of(c)),
        1 + lower_expr_spec(e, c, s).0.out.len() < u32::MAX,
    ensures
        computes(s, lower_expr_spec(e, c, s), value(e, names_of(c), v, f), f, m),
    decreases e, 0nat, 0nat,
{
    lemma_expr(e, c, s, 1);
    lemma_expr_still(e, c, s);
    match e {
        ExprView::Const(_) | ExprView::Time => {
            broadcast use group_follow;

            assert(followed(f, m));
        },
        ExprView::Slot(i) => {
            lemma_own_slot(i, c, s, v, f, m);
        },
        ExprView::Ref(name, slot) => {
            let id = entity_of(c, name);
            assert(has_some(s, 1, reg_get(c.parts.ref_regs, id, PropKind::State(slot))));
            lemma_known_value(s, ref_reg(c, id, slot), f, m);
        },
        ExprView::PropRef(name, kind) => {
            let id = entity_of(c, name);
            assert(has_some(s, 1, reg_get(c.parts.prop_regs, id, kind)));
            lemma_known_value(s, prop_reg(c, id, kind), f, m);
        },
        ExprView::Name(name) => {
            lemma_name_value(name, c, s, v, f, m);
        },
        ExprView::Neg(x) => {
            lemma_value(*x, c, s, v, f, m);
            let (s1, rx) = lower_expr_spec(*x, c, s);
            lemma_neg_value(s1, rx, f, m);
        },
        ExprView::Not(x) => {
            lemma_value(*x, c, s, v, f, m);
            let (s1, ra) = lower_expr_spec(*x, c, s);
            lemma_not_value(s1, ra, f, m);
        },
        ExprView::Arith(op, a, b) => {
            lemma_lengths(*a, *b, c, s);
            lemma_value(*a, c, s, v, f, m);
            let (s1, ra) = lower_expr_spec(*a, c, s);
            let (s2, rb) = lower_expr_spec(*b, c, s1);
            lemma_shows(v, c, s, s1, f, m);
            lemma_value(*b, c, s1, v, f, m);
            lemma_two(*a, *b, c, s, v, f, m);
            lemma_arith_value(op, s2, ra, rb, f, m);
        },
        ExprView::Compare(op, a, b) => {
            lemma_lengths(*a, *b, c, s);
            lemma_value(*a, c, s, v, f, m);
            let (s1, ra) = lower_expr_spec(*a, c, s);
            let (s2, rb) = lower_expr_spec(*b, c, s1);
            lemma_shows(v, c, s, s1, f, m);
            lemma_value(*b, c, s1, v, f, m);
            lemma_two(*a, *b, c, s, v, f, m);
            lemma_compare_value(op, s2, ra, rb, f, m);
        },
        ExprView::And(a, b) => {
            lemma_lengths(*a, *b, c, s);
            lemma_value(*a, c, s, v, f, m);
            let (s1, ra) = lower_expr_spec(*a, c, s);
            let (s2, rb) = lower_expr_spec(*b, c, s1);
            lemma_shows(v, c, s, s1, f, m);
            lemma_value(*b, c, s1, v, f, m);
            lemma_two(*a, *b, c, s, v, f, m);
            lemma_both_len(e, *a, *b, c, s);
            lemma_logic_value(s2, ra, rb, f, m);
        },
        ExprView::Or(a, b) => {
            lemma_lengths(*a, *b, c, s);
            lemma_value(*a, c, s, v, f, m);
            let (s1, ra) = lower_expr_spec(*a, c, s);
            let (s2, rb) = lower_expr_spec(*b, c, s1);
            lemma_shows(v, c, s, s1, f, m);
            lemma_value(*b, c, s1, v, f, m);
            lemma_two(*a, *b, c, s, v, f, m);
            lemma_either_len(e, *a, *b, c, s);
            lemma_either_value(s2, ra, rb, f, m);
        },
        ExprView::Call(name, args) => {
            lemma_call_value(builtin(name), args, c, s, v, f, m);
        },
        ExprView::SlotDyn(_) => {},
    }
}

proof fn lemma_lengths(a: ExprView, b: ExprView, c: CtxView, s: Emit)
    requires
        tidy(s, 1),
        knows(c, s, 1),
    ensures
        ({
            let (s1, ra) = lower_expr_spec(a, c, s);
            let (s2, rb) = lower_expr_spec(b, c, s1);
            &&& yields(s, (s1, ra), 1)
            &&& knows(c, s1, 1)
            &&& yields(s1, (s2, rb), 1)
            &&& still(s, s1)
        }),
{
    let (s1, ra) = lower_expr_spec(a, c, s);
    lemma_expr(a, c, s, 1);
    lemma_expr_still(a, c, s);
    lemma_knows(c, s, s1, 1);
    lemma_expr(b, c, s1, 1);
}

proof fn lemma_term_value(
    kind: Builtin,
    comps: Seq<u32>,
    vals: Seq<real>,
    i: int,
    s: Emit,
    f: Functions,
    m: Machine,
)
    requires
        tidy(s, 1),
        has_all(s, 1, comps),
        comps.len() >= vector_arity(kind),
        kind == Builtin::VectorLength || kind == Builtin::VectorDot || kind
            == Builtin::VectorDistance,
        0 <= i < 3,
        s.out.len() + 3 < u32::MAX,
        forall|k: int|
            0 <= k < comps.len() ==> held_by(s, #[trigger] comps[k], f, m) == argument(vals, k),
    ensures
        ({
            let (t, r) = vector_term(s, kind, comps, i);
            let x = argument(vals, i);
            let y = argument(vals, i + 3);
            &&& tidy(t, 1)
            &&& has(t, 1, r)
            &&& after(s, t, 1)
            &&& s.out.len() <= t.out.len() <= s.out.len() + 2
            &&& held_by(t, r, f, m) == (match kind {
                Builtin::VectorLength => x * x,
                Builtin::VectorDot => x * y,
                _ => (x - y) * (x - y),
            })
        }),
{
    assert(has(s, 1, comps[i]));
    assert(held_by(s, comps[i], f, m) == argument(vals, i));
    if kind != Builtin::VectorLength {
        assert(has(s, 1, comps[i + 3]));
        assert(held_by(s, comps[i + 3], f, m) == argument(vals, i + 3));
    }
    broadcast use group_follow;

    assert(followed(f, m));
}

proof fn lemma_comps_stay(
    comps: Seq<u32>,
    vals: Seq<real>,
    s: Emit,
    t: Emit,
    f: Functions,
    m: Machine,
)
    requires
        tidy(s, 1),
        tidy(t, 1),
        small(t, 1),
        after(s, t, 1),
        has_all(s, 1, comps),
        forall|k: int|
            0 <= k < comps.len() ==> held_by(s, #[trigger] comps[k], f, m) == argument(vals, k),
    ensures
        has_all(t, 1, comps),
        forall|k: int|
            0 <= k < comps.len() ==> held_by(t, #[trigger] comps[k], f, m) == argument(vals, k),
{
    lemma_registers_stay(s, t, f, m);
    assert forall|k: int| 0 <= k < comps.len() implies has(t, 1, #[trigger] comps[k]) && held_by(
        t,
        comps[k],
        f,
        m,
    ) == argument(vals, k) by {
        assert(has(s, 1, comps[k]));
        assert(held_by(t, comps[k], f, m) == held_by(s, comps[k], f, m));
    }
}

proof fn lemma_vector_value(
    kind: Builtin,
    comps: Seq<u32>,
    vals: Seq<real>,
    s: Emit,
    f: Functions,
    m: Machine,
)
    requires
        tidy(s, 1),
        has_all(s, 1, comps),
        comps.len() >= vector_arity(kind),
        kind == Builtin::VectorLength || kind == Builtin::VectorDot || kind
            == Builtin::VectorDistance,
        1 + vector_of(s, kind, comps).0.out.len() < u32::MAX,
        forall|k: int|
            0 <= k < comps.len() ==> held_by(s, #[trigger] comps[k], f, m) == argument(vals, k),
    ensures
        held_by(vector_of(s, kind, comps).0, vector_of(s, kind, comps).1, f, m) == builtin_value(
            kind,
            vals,
            f,
        ),
{
    let (s1, a) = vector_term(s, kind, comps, 0);
    let (s2, b) = vector_term(s1, kind, comps, 1);
    let (s3, d) = vector_term(s2, kind, comps, 2);
    lemma_term_value(kind, comps, vals, 0, s, f, m);
    lemma_comps_stay(comps, vals, s, s1, f, m);
    lemma_term_value(kind, comps, vals, 1, s1, f, m);
    lemma_comps_stay(comps, vals, s1, s2, f, m);
    lemma_term_value(kind, comps, vals, 2, s2, f, m);
    lemma_registers_stay(s1, s2, f, m);
    lemma_registers_stay(s2, s3, f, m);
    assert(held_by(s3, a, f, m) == held_by(s2, a, f, m) == held_by(s1, a, f, m));
    assert(held_by(s3, b, f, m) == held_by(s2, b, f, m));
    broadcast use group_follow;

    assert(followed(f, m));
    let (s4, sum) = op_of(s3, Opcode::Add, seq![a, b]);
    let (s5, total) = op_of(s4, Opcode::Add, seq![sum, d]);
    assert(held_by(s4, sum, f, m) == held_by(s3, a, f, m) + held_by(s3, b, f, m));
    assert(held_by(s5, total, f, m) == held_by(s4, sum, f, m) + held_by(s4, d, f, m));
}

proof fn lemma_choice_value(s: Emit, a: u32, b: u32, d: u32, f: Functions, m: Machine)
    requires
        tidy(s, 1),
        has(s, 1, a),
        has(s, 1, b),
        has(s, 1, d),
        s.out.len() + 1 < u32::MAX,
    ensures
        ({
            let (t, r) = op_of(s, Opcode::Select, seq![a, b, d]);
            held_by(t, r, f, m) == (if held_by(s, a, f, m) != 0 as real {
                held_by(s, b, f, m)
            } else {
                held_by(s, d, f, m)
            })
        }),
{
    broadcast use group_follow;

    assert(followed(f, m));
}

proof fn lemma_extremum_value(opcode: Opcode, s: Emit, a: u32, b: u32, f: Functions, m: Machine)
    requires
        tidy(s, 1),
        has(s, 1, a),
        has(s, 1, b),
        opcode == Opcode::Lt || opcode == Opcode::Gt,
        s.out.len() + 2 < u32::MAX,
    ensures
        ({
            let (s1, cond) = test_of(s, opcode, seq![a, b]);
            let (t, r) = op_of(s1, Opcode::Select, seq![cond, a, b]);
            let x = held_by(s, a, f, m);
            let y = held_by(s, b, f, m);
            held_by(t, r, f, m) == (if (opcode == Opcode::Lt && x < y) || (opcode == Opcode::Gt && x
                > y) {
                x
            } else {
                y
            })
        }),
{
    broadcast use group_follow;

    assert(followed(f, m));
}

proof fn lemma_plain_value(
    opcode: Opcode,
    s: Emit,
    regs: Seq<u32>,
    vals: Seq<real>,
    f: Functions,
    m: Machine,
)
    requires
        tidy(s, 1),
        has_all(s, 1, regs),
        hold(s, regs, vals, f, m),
        functional(Builtin::Plain(opcode), regs.len()),
        s.out.len() + 1 < u32::MAX,
    ensures
        ({
            let (t, r) = op_of(s, opcode, regs);
            held_by(t, r, f, m) == builtin_value(Builtin::Plain(opcode), vals, f)
        }),
{
    broadcast use group_follow;

    assert(followed(f, m));
    assert(values(run(s.out, f, m), regs) =~= vals) by {
        assert forall|k: int| 0 <= k < regs.len() implies values(run(s.out, f, m), regs)[k]
            == vals[k] by {
            assert(held_by(s, regs[k], f, m) == vals[k]);
        }
    }
    if opcode == Opcode::Sqrt || opcode == Opcode::Abs {
        assert(held_by(s, regs[0], f, m) == vals[0]);
    }
}

#[verifier::rlimit(60)]
proof fn lemma_call_value(
    kind: Builtin,
    args: Seq<ExprView>,
    c: CtxView,
    s: Emit,
    v: Sight,
    f: Functions,
    m: Machine,
)
    requires
        tidy(s, 1),
        knows(c, s, 1),
        shows(v, c, s, f, m),
        functional(kind, args.len()),
        forall|i: int| 0 <= i < args.len() ==> plain(#[trigger] args[i], names_of(c)),
        1 + lower_builtin(kind, args, c, s).0.out.len() < u32::MAX,
    ensures
        ({
            let (t, r) = lower_builtin(kind, args, c, s);
            held_by(t, r, f, m) == builtin_value(
                kind,
                argument_values(args, args.len(), names_of(c), v, f),
                f,
            )
        }),
    decreases args, 1nat, 3nat,
{
    let most = match kind {
        Builtin::If => 3nat,
        Builtin::Extremum(_) => 2nat,
        _ => args.len(),
    };
    let n = if most <= args.len() {
        most
    } else {
        args.len()
    };
    let least = match kind {
        Builtin::If => 3nat,
        Builtin::Extremum(_) => 2nat,
        Builtin::Plain(_) => 0nat,
        _ => vector_arity(kind),
    };
    let vals = argument_values(args, n, names_of(c), v, f);
    let all = argument_values(args, args.len(), names_of(c), v, f);
    lemma_arguments_agree(args, args.len(), n, names_of(c), v, f);
    let (s0, given) = lower_range(args, 0, n, c, s);
    assert(lower_range(args, 0, most, c, s) == (s0, given));
    let (s1, regs) = padded(s0, given, least);
    lemma_padded_grows(s0, given, least);
    lemma_call_grows(kind, args, c, s, s1, regs);
    lemma_range_value(args, n, c, s, v, f, m);
    lemma_padded_value(s0, given, vals, least, f, m);
    assert forall|k: int| 0 <= k < least implies argument(vals, k) == argument(all, k) by {
    }
    match kind {
        Builtin::If => {
            assert(held_by(s1, regs[0], f, m) == argument(vals, 0));
            assert(held_by(s1, regs[1], f, m) == argument(vals, 1));
            assert(held_by(s1, regs[2], f, m) == argument(vals, 2));
            assert(has(s1, 1, regs[0]) && has(s1, 1, regs[1]) && has(s1, 1, regs[2]));
            lemma_choice_value(s1, regs[0], regs[1], regs[2], f, m);
        },
        Builtin::Extremum(opcode) => {
            assert(held_by(s1, regs[0], f, m) == argument(vals, 0));
            assert(held_by(s1, regs[1], f, m) == argument(vals, 1));
            assert(has(s1, 1, regs[0]) && has(s1, 1, regs[1]));
            lemma_extremum_value(opcode, s1, regs[0], regs[1], f, m);
        },
        Builtin::Plain(opcode) => {
            assert(vals =~= all);
            assert(s1 == s0 && regs == given);
            lemma_plain_value(opcode, s0, given, vals, f, m);
        },
        _ => {
            assert(vals =~= all);
            lemma_vector_value(kind, regs, vals, s1, f, m);
        },
    }
}

proof fn lemma_call_grows(
    kind: Builtin,
    args: Seq<ExprView>,
    c: CtxView,
    s: Emit,
    s1: Emit,
    regs: Seq<u32>,
)
    requires
        functional(kind, args.len()),
        match kind {
            Builtin::If => (s1, regs) == ({
                let (s0, given) = lower_range(args, 0, 3, c, s);
                padded(s0, given, 3)
            }),
            Builtin::Extremum(_) => (s1, regs) == ({
                let (s0, given) = lower_range(args, 0, 2, c, s);
                padded(s0, given, 2)
            }),
            Builtin::Plain(_) => (s1, regs) == lower_range(args, 0, args.len(), c, s),
            _ => (s1, regs) == ({
                let (s0, given) = lower_range(args, 0, args.len(), c, s);
                padded(s0, given, vector_arity(kind))
            }),
        },
    ensures
        s1.out.len() + 1 <= lower_builtin(kind, args, c, s).0.out.len(),
        kind is Extremum ==> s1.out.len() + 2 <= lower_builtin(kind, args, c, s).0.out.len(),
{
}

/// A lowered expression computes the value of the expression: a sum the sum, a difference
/// the difference in its order, a comparison one or zero, and so on. It changes nothing in
/// the world.
pub proof fn law_lowered_expression_is_its_value(
    e: ExprView,
    c: CtxView,
    s: Emit,
    v: Sight,
    f: Functions,
    m: Machine,
)
    requires
        tidy(s, 1),
        knows(c, s, 1),
        shows(v, c, s, f, m),
        plain(e, names_of(c)),
        1 + lower_expr_spec(e, c, s).0.out.len() < u32::MAX,
    ensures
        ({
            let (t, r) = lower_expr_spec(e, c, s);
            &&& held_by(t, r, f, m) == value(e, names_of(c), v, f)
            &&& run(t.out, f, m).world == run(s.out, f, m).world
        }),
{
    lemma_value(e, c, s, v, f, m);
    lemma_world_stays(s.out, lower_expr_spec(e, c, s).0.out, f, m);
}

/// Whether two sights differ at most in the own slots from an index on.
pub open spec fn alike_below(v: Sight, w: Sight, slots: int) -> bool {
    &&& v.local == w.local
    &&& v.foreign == w.foreign
    &&& v.property == w.property
    &&& v.param == w.param
    &&& v.time == w.time
    &&& forall|i: usize| i < slots ==> #[trigger] (v.slot)(i) == (w.slot)(i)
}

/// Whether a span stays below an index.
pub open spec fn below(a: Option<usize>, slots: int) -> bool {
    a matches Some(i) ==> i < slots
}

/// An expression depends on no slot beyond those of its span.
pub proof fn law_value_depends_on_its_span(
    e: ExprView,
    d: Names,
    v: Sight,
    w: Sight,
    f: Functions,
    slots: int,
)
    requires
        below(span(e, d.layout), slots),
        alike_below(v, w, slots),
    ensures
        value(e, d, v, f) == value(e, d, w, f),
    decreases e, 0nat,
{
    match e {
        ExprView::Neg(x) | ExprView::Not(x) => {
            law_value_depends_on_its_span(*x, d, v, w, f, slots);
        },
        ExprView::Arith(_, a, b) | ExprView::Compare(_, a, b) => {
            law_value_depends_on_its_span(*a, d, v, w, f, slots);
            law_value_depends_on_its_span(*b, d, v, w, f, slots);
        },
        ExprView::And(a, b) | ExprView::Or(a, b) => {
            law_value_depends_on_its_span(*a, d, v, w, f, slots);
            law_value_depends_on_its_span(*b, d, v, w, f, slots);
        },
        ExprView::Call(name, args) => {
            lemma_arguments_span(args, args.len(), d, v, w, f, slots);
        },
        _ => {},
    }
}

proof fn lemma_arguments_span(
    args: Seq<ExprView>,
    n: nat,
    d: Names,
    v: Sight,
    w: Sight,
    f: Functions,
    slots: int,
)
    requires
        n <= args.len(),
        below(span_all(args, n, d.layout), slots),
        alike_below(v, w, slots),
    ensures
        argument_values(args, n, d, v, f) == argument_values(args, n, d, w, f),
    decreases args, n,
{
    if n > 0 {
        lemma_arguments_span(args, (n - 1) as nat, d, v, w, f, slots);
        law_value_depends_on_its_span(args[n - 1], d, v, w, f, slots);
    }
}

} // verus!
