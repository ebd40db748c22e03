//! Statements of rule bodies, out of syntax trees and into resolved form.

use crate::decl::{update_views, UpdateStmt, UpdateView};
use crate::double::{
    below, clamped, finite, fits, in_i64, integer_between, integer_within, integral, is_integral,
    less_than, rank, to_i64,
};
use crate::expr::{cond_view, stmt_views, Expr, LetStmt, LetStmtView};
use crate::fault::{invalid, invalid_at, reject, reject_at, text_view, Fault, FaultView};
use crate::grammar::Rule;
use crate::names::same;
use crate::numbers::{number, Numbers, NumbersView};
use crate::peg::{lemma_children, trees, Node, Tree};
use crate::syntax::{expr_text, parse_expr_str};
use crate::text::{all_digits, joined, part, trim, trimmed};
use vstd::prelude::*;
use vstd::string::*;

verus! {

/// The greatest number of iterations of one loop.
pub const MAX_REPEAT_COUNT: u64 = 1_000;

/// The greatest number of statements that one loop may unroll into.
pub const MAX_UNROLLED_STMTS: u64 = 10_000;

/// Whether a name is read as something else before locals are looked up: the clock
/// `t`, the constants `pi` and `e`, and slots `sN`.
pub open spec fn reserved(name: Seq<char>) -> bool {
    name == "t"@ || name == "pi"@ || name == "e"@ || (name.len() > 1 && name[0] == 's'
        && all_digits(name.drop_first()))
}

fn digits_only(text: &str) -> (r: bool)
    ensures
        r == all_digits(text@),
{
    let chars: Vec<char> = crate::names::chars_of(text);
    let mut k: usize = 0;
    while k < chars.len()
        invariant
            k <= chars.len(),
            chars@ == text@,
            forall|i: int| 0 <= i < k ==> crate::text::is_digit(#[trigger] text@[i]),
        decreases chars.len() - k,
    {
        if !(chars[k] >= '0' && chars[k] <= '9') {
            proof {
                assert(!crate::text::is_digit(text@[k as int]));
            }
            return false;
        }
        k = k + 1;
    }
    true
}

fn is_reserved(name: &str) -> (r: bool)
    ensures
        r == reserved(name@),
{
    if same(name, "t") || same(name, "pi") || same(name, "e") {
        return true;
    }
    let len: usize = name.unicode_len();
    if len > 1 && name.get_char(0) == 's' {
        let rest: String = part(name, 1, len);
        proof {
            assert(rest@ =~= name@.drop_first());
        }
        digits_only(&rest)
    } else {
        false
    }
}

/// The fault of binding a name that can never be read back.
pub open spec fn let_name_fault(name: Seq<char>, offset: usize) -> Option<FaultView> {
    if reserved(name) {
        Some(
            invalid_at(
                67,
                offset,
                "let name `"@ + name
                    + "` shadows a reserved token (t, pi, e, s0..) and can never be read"@,
            ),
        )
    } else {
        None
    }
}

/// The view of an optional fault.
pub open spec fn fault_view(f: Option<Fault>) -> Option<FaultView> {
    match f {
        Some(f) => Some(f@),
        None => None,
    }
}

/// Rejects a name that can never be read back.
pub fn check_let_name(name: &str, offset: usize) -> (r: Option<Fault>)
    ensures
        fault_view(r) == let_name_fault(name@, offset),
{
    if is_reserved(name) {
        let head: String = joined("let name `", name);
        let message: String = joined(
            &head,
            "` shadows a reserved token (t, pi, e, s0..) and can never be read",
        );
        Some(reject_at(67, offset, message))
    } else {
        None
    }
}

/// An integer bound of a loop, by its bits.
pub open spec fn int_bound(
    n: NumbersView,
    text: Seq<char>,
    offset: usize,
    what: Seq<char>,
) -> Result<u64, FaultView> {
    match number(n, text) {
        None => Err(invalid(57)),
        Some(v) => if integral(v) {
            Ok(v)
        } else {
            Err(invalid_at(65, offset, what + " must be an integer, got `"@ + text + "`"@))
        },
    }
}

fn parse_int_bound(numbers: &Numbers, text: &str, offset: usize, what: &str) -> (r: Result<
    u64,
    Fault,
>)
    ensures
        int_bound(numbers@, text@, offset, what@) == (match r {
            Ok(v) => Ok(v),
            Err(f) => Err(f@),
        }),
{
    match numbers.get(text) {
        None => Err(reject(57)),
        Some(v) => {
            if is_integral(v) {
                Ok(v)
            } else {
                let a: String = joined(what, " must be an integer, got `");
                let b: String = joined(&a, text);
                Err(reject_at(65, offset, joined(&b, "`")))
            }
        },
    }
}

/// The number of statements that a statement unrolls into.
pub open spec fn unrolled_one(s: UpdateView) -> nat
    decreases s, 0nat,
{
    match s {
        UpdateView::Repeat(n, body) => n as nat * unrolled(body, body.len()),
        UpdateView::For(_, lo, hi, body) => if hi > lo {
            ((hi - lo) * (unrolled(body, body.len()) + 1)) as nat
        } else {
            0
        },
        _ => 1,
    }
}

/// The number of statements that the first `k` statements unroll into. A `for` binds
/// its index once per iteration.
pub open spec fn unrolled(s: Seq<UpdateView>, k: nat) -> nat
    decreases s, k,
{
    if k == 0 || k > s.len() {
        0
    } else {
        unrolled(s, (k - 1) as nat) + unrolled_one(s[k - 1])
    }
}

/// A count cut off far beyond every limit.
pub open spec fn cut_off(n: nat) -> nat {
    if n > 1_000_000_000 {
        1_000_000_000
    } else {
        n
    }
}

fn capped(n: u128) -> (r: u64)
    ensures
        r == cut_off(n as nat),
{
    if n > 1_000_000_000 {
        1_000_000_000
    } else {
        n as u64
    }
}

proof fn lemma_cut_product(n: nat, x: nat)
    ensures
        cut_off(n * cut_off(x)) == cut_off(n * x),
{
    if x > 1_000_000_000 && n > 0 {
        assert(n * x >= x) by (nonlinear_arith)
            requires
                n >= 1,
        ;
        assert(n * 1_000_000_000 >= 1_000_000_000) by (nonlinear_arith)
            requires
                n >= 1,
        ;
    } else if n == 0 {
        assert(n * x == 0) by (nonlinear_arith)
            requires
                n == 0,
        ;
        assert(n * cut_off(x) == 0) by (nonlinear_arith)
            requires
                n == 0,
        ;
    }
}

fn unrolled_stmt(s: &UpdateStmt) -> (r: u64)
    ensures
        r == cut_off(unrolled_one(s@)),
    decreases s, 0nat,
{
    match s {
        UpdateStmt::Repeat(n, body) => {
            proof {
                assert(s@->Repeat_1 =~= update_views(body@));
                lemma_cut_product(*n as nat, unrolled(s@->Repeat_1, s@->Repeat_1.len()));
            }
            let size: u64 = unrolled_size(body);
            proof {
                assert(*n as u128 * size as u128 <= u64::MAX as u128 * 1_000_000_000)
                    by (nonlinear_arith)
                    requires
                        *n as u128 <= u64::MAX as u128,
                        size <= 1_000_000_000,
                ;
            }
            capped(*n as u128 * size as u128)
        },
        UpdateStmt::For(_, lo, hi, body) => {
            if *hi > *lo {
                let width: u128 = (*hi as i128 - *lo as i128) as u128;
                let size: u64 = unrolled_size(body);
                proof {
                    assert(s@->For_3 =~= update_views(body@));
                    let exact = unrolled(s@->For_3, s@->For_3.len());
                    lemma_cut_product(width as nat, exact + 1);
                    if exact + 1 > 1_000_000_000 {
                        assert(width as nat * cut_off(exact + 1) <= width as nat * (size + 1) as nat)
                            by (nonlinear_arith)
                            requires
                                cut_off(exact + 1) <= size + 1,
                        ;
                        assert(width as nat * cut_off(exact + 1) >= 1_000_000_000)
                            by (nonlinear_arith)
                            requires
                                width >= 1,
                                cut_off(exact + 1) == 1_000_000_000,
                        ;
                    }
                    assert(width * (size as u128 + 1) <= u64::MAX as u128 * 1_000_000_001)
                        by (nonlinear_arith)
                        requires
                            width <= u64::MAX as u128,
                            size <= 1_000_000_000,
                    ;
                }
                capped(width * (size as u128 + 1))
            } else {
                0
            }
        },
        _ => 1,
    }
}

/// The number of statements that a list unrolls into, cut off far beyond the limit.
fn unrolled_size(stmts: &Vec<UpdateStmt>) -> (r: u64)
    ensures
        r == cut_off(unrolled(update_views(stmts@), stmts@.len())),
    decreases stmts, 1nat,
{
    let ghost views = update_views(stmts@);
    let mut total: u64 = 0;
    let mut i: usize = 0;
    while i < stmts.len()
        invariant
            i <= stmts.len(),
            views == update_views(stmts@),
            total == cut_off(unrolled(views, i as nat)),
        decreases stmts.len() - i,
    {
        proof {
            assert(views[i as int] == stmts@[i as int]@);
            assert(decreases_to!(*stmts => stmts@[i as int]));
        }
        let one: u64 = unrolled_stmt(&stmts[i]);
        total = capped(total as u128 + one as u128);
        i = i + 1;
    }
    total
}

/// The number of iterations from `lo` to `hi`; none where the bounds are so far out
/// that only equal ones are within reach of each other.
pub open spec fn range_width(lo: u64, hi: u64) -> Option<nat> {
    if fits(lo) && fits(hi) {
        if clamped(hi) >= clamped(lo) {
            Some((clamped(hi) - clamped(lo)) as nat)
        } else {
            Some(0)
        }
    } else if rank(lo) == rank(hi) {
        Some(0)
    } else {
        None
    }
}

fn width_of(lo: u64, hi: u64) -> (r: Option<u64>)
    requires
        finite(lo),
        finite(hi),
    ensures
        range_width(lo, hi) == (match r {
            Some(w) => Some(w as nat),
            None => None,
        }),
{
    if in_i64(lo) && in_i64(hi) {
        let a: i64 = to_i64(lo);
        let b: i64 = to_i64(hi);
        if b >= a {
            Some((b as i128 - a as i128) as u64)
        } else {
            Some(0)
        }
    } else if lo == hi {
        Some(0)
    } else {
        proof {
            if rank(lo) == rank(hi) {
                lemma_rank_zero(lo, hi);
            }
        }
        None
    }
}

/// Different doubles of the same rank are the two zeros.
proof fn lemma_rank_zero(a: u64, b: u64)
    requires
        rank(a) == rank(b),
        a != b,
    ensures
        fits(a),
        fits(b),
{
    assert(a == 0 || a == 0x8000_0000_0000_0000);
    assert(b == 0 || b == 0x8000_0000_0000_0000);
    assert(crate::double::significand(a) == 0);
    assert(crate::double::significand(b) == 0);
    vstd::arithmetic::power2::lemma_pow2_pos(1074);
    vstd::arithmetic::div_mod::lemma_div_basics(
        vstd::arithmetic::power2::pow2(1074) as int,
    );
}

/// The condition that a gate puts on the iterations, and whether it is checked
/// before each.
pub open spec fn gate_of(kids: Seq<Tree>, k: nat) -> Option<(bool, Seq<char>)>
    decreases k,
{
    if k == 0 || k > kids.len() {
        None
    } else if kids[k - 1].rule == Rule::RepeatGate && kids[k - 1].children.len() >= 2 {
        let c = kids[k - 1].children;
        Some((c[0].text == "while"@, trimmed(c[1].text)))
    } else {
        gate_of(kids, (k - 1) as nat)
    }
}

fn find_gate(kids: &Vec<Node>) -> (r: Option<(bool, String)>)
    ensures
        gate_of(trees(kids@), kids@.len()) == (match r {
            Some((before, cond)) => Some((before, cond@)),
            None => None,
        }),
{
    let mut k: usize = kids.len();
    while k > 0
        invariant
            k <= kids.len(),
            gate_of(trees(kids@), kids@.len()) == gate_of(trees(kids@), k as nat),
        decreases k,
    {
        let node: &Node = &kids[k - 1];
        proof {
            assert(trees(kids@)[k - 1] == node@);
            lemma_children(*node);
        }
        if node.rule == Rule::RepeatGate && node.children.len() >= 2 {
            proof {
                assert(node@.children[0] == node.children@[0]@);
                assert(node@.children[1] == node.children@[1]@);
            }
            return Some((same(&node.children[0].text, "while"), trim(&node.children[1].text)));
        }
        k = k - 1;
    }
    None
}

/// The condition of a jump: the third child, where there are three.
pub open spec fn jump_cond(kids: Seq<Tree>) -> Option<Seq<char>> {
    if kids.len() == 3 {
        Some(trimmed(kids[2].text))
    } else {
        None
    }
}

fn jump_condition(node: &Node) -> (r: Option<String>)
    ensures
        text_view(r) == jump_cond(node@.children),
{
    proof {
        lemma_children(*node);
    }
    if node.children.len() == 3 {
        proof {
            assert(node@.children[2] == node.children@[2]@);
        }
        Some(trim(&node.children[2].text))
    } else {
        None
    }
}

/// A local binding out of its node.
pub open spec fn binding_of(t: Tree, offset: usize) -> Result<UpdateView, FaultView> {
    if t.children.len() < 2 {
        Err(invalid(56))
    } else {
        let name = t.children[0].text;
        match let_name_fault(name, offset) {
            Some(f) => Err(f),
            None => Ok(UpdateView::Let(name, trimmed(t.children[1].text))),
        }
    }
}

/// The view of a statement result.
pub open spec fn stmt_result(r: Result<UpdateStmt, Fault>) -> Result<UpdateView, FaultView> {
    match r {
        Ok(s) => Ok(s@),
        Err(f) => Err(f@),
    }
}

/// The view of a result with a statement list.
pub open spec fn stmts_result(r: Result<Vec<UpdateStmt>, Fault>) -> Result<
    Seq<UpdateView>,
    FaultView,
> {
    match r {
        Ok(s) => Ok(update_views(s@)),
        Err(f) => Err(f@),
    }
}

/// Builds a local binding.
pub fn build_binding(node: &Node, offset: usize) -> (r: Result<UpdateStmt, Fault>)
    ensures
        stmt_result(r) == binding_of(node@, offset),
{
    proof {
        lemma_children(*node);
    }
    if node.children.len() < 2 {
        return Err(reject(56));
    }
    proof {
        assert(node@.children[0] == node.children@[0]@);
        assert(node@.children[1] == node.children@[1]@);
    }
    match check_let_name(&node.children[0].text, offset) {
        Some(f) => Err(f),
        None => Ok(
            UpdateStmt::Let(node.children[0].text.clone(), trim(&node.children[1].text)),
        ),
    }
}

/// One item of a loop body.
pub open spec fn item_of(n: NumbersView, t: Tree, offset: usize) -> Result<UpdateView, FaultView>
    decreases t, 1nat, 0nat,
{
    if t.children.len() == 0 {
        Err(invalid(56))
    } else {
        let inner = t.children[0];
        match inner.rule {
            Rule::LetStmt => binding_of(inner, offset),
            Rule::RepeatStmt => loop_of(n, inner, offset),
            Rule::ForStmt => loop_of(n, inner, offset),
            Rule::BreakStmt => Ok(UpdateView::Break(jump_cond(inner.children))),
            Rule::ContinueStmt => Ok(UpdateView::Continue(jump_cond(inner.children))),
            _ => Err(invalid(56)),
        }
    }
}

/// The items of a loop body from the child `from` up to the `k`-th; gates are no
/// items.
pub open spec fn items_of(
    n: NumbersView,
    kids: Seq<Tree>,
    from: nat,
    k: nat,
    offset: usize,
) -> Result<Seq<UpdateView>, FaultView>
    decreases kids, 2nat, k,
{
    if k <= from || k > kids.len() {
        Ok(Seq::empty())
    } else {
        match items_of(n, kids, from, (k - 1) as nat, offset) {
            Err(f) => Err(f),
            Ok(body) => if kids[k - 1].rule == Rule::RepeatGate {
                Ok(body)
            } else {
                match item_of(n, kids[k - 1], offset) {
                    Err(f) => Err(f),
                    Ok(s) => Ok(body.push(s)),
                }
            },
        }
    }
}

/// The number of statements that a loop comes to, each iteration with `extra` statements
/// besides its body. Without an iteration the body counts once.
pub open spec fn loop_size(size: nat, extra: nat, iterations: nat) -> nat {
    if iterations == 0 {
        size
    } else {
        (size + extra) * iterations
    }
}

/// A loop body of the given number of iterations, each of which adds `extra` statements:
/// its index or its gate. The loop may not unroll too far.
pub open spec fn body_of(
    n: NumbersView,
    kids: Seq<Tree>,
    from: nat,
    iterations: nat,
    extra: nat,
    offset: usize,
) -> Result<Seq<UpdateView>, FaultView>
    decreases kids, 3nat, 0nat,
{
    match items_of(n, kids, from, kids.len(), offset) {
        Err(f) => Err(f),
        Ok(body) => if loop_size(unrolled(body, body.len()), extra, iterations)
            > MAX_UNROLLED_STMTS {
            Err(invalid_at(66, offset, "loop unrolls to more than 10000 statements"@))
        } else {
            Ok(body)
        },
    }
}

/// The number of statements that a gate adds to each iteration.
pub open spec fn gate_size(gate: Option<(bool, Seq<char>)>) -> nat {
    if gate is Some {
        1
    } else {
        0
    }
}

/// A body with its gate: `while` ends the loop before an iteration, `until` behind it.
pub open spec fn gated(body: Seq<UpdateView>, gate: Option<(bool, Seq<char>)>) -> Seq<UpdateView> {
    match gate {
        Some((true, cond)) => seq![UpdateView::Break(Some("not ("@ + cond + ")"@))] + body,
        Some((false, cond)) => body.push(UpdateView::Until(cond)),
        None => body,
    }
}

/// A loop out of its node.
pub open spec fn loop_of(n: NumbersView, t: Tree, offset: usize) -> Result<UpdateView, FaultView>
    decreases t, 4nat, 0nat,
{
    let kids = t.children;
    match t.rule {
        Rule::RepeatStmt => if kids.len() == 0 {
            Err(invalid(56))
        } else {
            match int_bound(n, kids[0].text, offset, "repeat count"@) {
                Err(f) => Err(f),
                Ok(raw) => match integer_within(raw, 1, MAX_REPEAT_COUNT as int) {
                    None => Err(
                        invalid_at(
                            65,
                            offset,
                            "repeat count must be an integer in 1..=1000, got `"@ + kids[0].text
                                + "`"@,
                        ),
                    ),
                    Some(count) => match body_of(
                        n,
                        kids,
                        1,
                        count as nat,
                        gate_size(gate_of(kids, kids.len())),
                        offset,
                    ) {
                        Err(f) => Err(f),
                        Ok(body) => Ok(
                            UpdateView::Repeat(count as usize, gated(body, gate_of(kids, kids.len()))),
                        ),
                    },
                },
            }
        },
        Rule::ForStmt => if kids.len() < 1 {
            Err(invalid(56))
        } else {
            match let_name_fault(kids[0].text, offset) {
                Some(f) => Err(f),
                None => if kids.len() < 2 || kids[1].children.len() < 2 {
                    Err(invalid(56))
                } else {
                    for_of(n, kids, kids[1].children[0].text, kids[1].children[1].text, offset)
                },
            }
        },
        _ => Err(invalid(56)),
    }
}

/// A counted loop, its bounds given as texts.
pub open spec fn for_of(
    n: NumbersView,
    kids: Seq<Tree>,
    low: Seq<char>,
    high: Seq<char>,
    offset: usize,
) -> Result<UpdateView, FaultView>
    decreases kids, 4nat, 0nat,
{
    match int_bound(n, low, offset, "for range start"@) {
        Err(f) => Err(f),
        Ok(lo) => match int_bound(n, high, offset, "for range end"@) {
            Err(f) => Err(f),
            Ok(hi) => if below(hi, lo) {
                Err(
                    invalid_at(
                        68,
                        offset,
                        "for range must be ascending integers, got "@ + low + ".."@ + high,
                    ),
                )
            } else {
                let width = range_width(lo, hi);
                if width is None || width->0 > MAX_REPEAT_COUNT {
                    Err(invalid_at(65, offset, "for range wider than 1000 iterations"@))
                } else {
                    match body_of(n, kids, 2, width->0, 1, offset) {
                        Err(f) => Err(f),
                        Ok(body) => Ok(
                            UpdateView::For(kids[0].text, clamped(lo), clamped(hi), body),
                        ),
                    }
                }
            },
        },
    }
}

proof fn lemma_items_fail(
    n: NumbersView,
    kids: Seq<Tree>,
    from: nat,
    k: nat,
    offset: usize,
    f: FaultView,
)
    requires
        from < k <= kids.len(),
        items_of(n, kids, from, k, offset) == Err::<Seq<UpdateView>, FaultView>(f),
    ensures
        items_of(n, kids, from, kids.len(), offset) == Err::<Seq<UpdateView>, FaultView>(f),
    decreases kids.len() - k,
{
    if k < kids.len() {
        lemma_items_fail(n, kids, from, k + 1, offset, f);
    }
}

fn build_item(numbers: &Numbers, item: &Node, offset: usize) -> (r: Result<UpdateStmt, Fault>)
    ensures
        stmt_result(r) == item_of(numbers@, item@, offset),
    decreases item, 1nat, 0nat,
{
    proof {
        lemma_children(*item);
    }
    if item.children.len() == 0 {
        return Err(reject(56));
    }
    let inner: &Node = &item.children[0];
    proof {
        assert(item@.children[0] == inner@);
        assert(decreases_to!(*item => item.children@[0]));
    }
    match inner.rule {
        Rule::LetStmt => build_binding(inner, offset),
        Rule::RepeatStmt => build_loop_stmt(numbers, inner, offset),
        Rule::ForStmt => build_loop_stmt(numbers, inner, offset),
        Rule::BreakStmt => Ok(UpdateStmt::Break(jump_condition(inner))),
        Rule::ContinueStmt => Ok(UpdateStmt::Continue(jump_condition(inner))),
        _ => Err(reject(56)),
    }
}

fn build_loop_body(
    numbers: &Numbers,
    node: &Node,
    from: usize,
    iterations: u64,
    extra: u64,
    offset: usize,
) -> (r: Result<Vec<UpdateStmt>, Fault>)
    requires
        from <= node.children@.len(),
        iterations <= MAX_REPEAT_COUNT,
        extra <= 1,
    ensures
        stmts_result(r) == body_of(
            numbers@,
            node@.children,
            from as nat,
            iterations as nat,
            extra as nat,
            offset,
        ),
    decreases node, 3nat, 0nat,
{
    let kids: &Vec<Node> = &node.children;
    let mut body: Vec<UpdateStmt> = Vec::new();
    proof {
        lemma_children(*node);
        assert(update_views(body@) =~= Seq::<UpdateView>::empty());
    }
    let mut k: usize = from;
    while k < kids.len()
        invariant
            from <= k <= kids.len(),
            *kids == node.children,
            node@.children == trees(kids@),
            items_of(numbers@, node@.children, from as nat, k as nat, offset) == Ok::<
                Seq<UpdateView>,
                FaultView,
            >(update_views(body@)),
        decreases kids.len() - k,
    {
        let ghost before = update_views(body@);
        proof {
            assert(node@.children[k as int] == kids@[k as int]@);
            assert(decreases_to!(*node => node.children@[k as int]));
        }
        if kids[k].rule != Rule::RepeatGate {
            match build_item(numbers, &kids[k], offset) {
                Ok(s) => {
                    body.push(s);
                    proof {
                        assert(update_views(body@) =~= before.push(s@));
                    }
                },
                Err(f) => {
                    proof {
                        lemma_items_fail(
                            numbers@,
                            node@.children,
                            from as nat,
                            (k + 1) as nat,
                            offset,
                            f@,
                        );
                    }
                    return Err(f);
                },
            }
        }
        k = k + 1;
    }
    let size: u64 = unrolled_size(&body);
    let total: u64 = if iterations == 0 {
        size
    } else {
        proof {
            assert((size + extra) * iterations <= 1_000_000_001 * 1_000) by (nonlinear_arith)
                requires
                    size + extra <= 1_000_000_001,
                    iterations <= 1_000,
            ;
        }
        (size + extra) * iterations
    };
    proof {
        let exact = unrolled(update_views(body@), body@.len());
        if exact > 1_000_000_000 && iterations > 0 {
            assert((exact + extra) * iterations > 10_000) by (nonlinear_arith)
                requires
                    exact > 1_000_000_000,
                    iterations >= 1,
                    extra >= 0,
            ;
            assert((size + extra) * iterations > 10_000) by (nonlinear_arith)
                requires
                    size == 1_000_000_000,
                    iterations >= 1,
                    extra >= 0,
            ;
        }
    }
    if total > MAX_UNROLLED_STMTS {
        return Err(reject_at(66, offset, "loop unrolls to more than 10000 statements".to_owned()));
    }
    Ok(body)
}

fn add_gate(body: Vec<UpdateStmt>, gate: Option<(bool, String)>) -> (r: Vec<UpdateStmt>)
    ensures
        update_views(r@) == gated(
            update_views(body@),
            match gate {
                Some((before, cond)) => Some((before, cond@)),
                None => None,
            },
        ),
{
    let mut r: Vec<UpdateStmt> = body;
    let ghost plain = update_views(r@);
    match gate {
        None => {},
        Some((true, cond)) => {
            let head: String = joined("not (", &cond);
            let stop: UpdateStmt = UpdateStmt::Break(Some(joined(&head, ")")));
            let ghost s = stop@;
            r.insert(0, stop);
            proof {
                assert(update_views(r@) =~= seq![s] + plain);
            }
        },
        Some((false, cond)) => {
            let stop: UpdateStmt = UpdateStmt::Until(cond);
            let ghost s = stop@;
            r.push(stop);
            proof {
                assert(update_views(r@) =~= plain.push(s));
            }
        },
    }
    r
}

fn build_for(
    numbers: &Numbers,
    node: &Node,
    low: &str,
    high: &str,
    offset: usize,
) -> (r: Result<UpdateStmt, Fault>)
    requires
        node.children@.len() >= 2,
    ensures
        stmt_result(r) == for_of(numbers@, node@.children, low@, high@, offset),
    decreases node, 4nat, 0nat,
{
    let lo: u64 = match parse_int_bound(numbers, low, offset, "for range start") {
        Ok(v) => v,
        Err(f) => return Err(f),
    };
    let hi: u64 = match parse_int_bound(numbers, high, offset, "for range end") {
        Ok(v) => v,
        Err(f) => return Err(f),
    };
    if less_than(hi, lo) {
        let a: String = joined("for range must be ascending integers, got ", low);
        let b: String = joined(&a, "..");
        return Err(reject_at(68, offset, joined(&b, high)));
    }
    let width: u64 = match width_of(lo, hi) {
        Some(w) => w,
        None => return Err(
            reject_at(65, offset, "for range wider than 1000 iterations".to_owned()),
        ),
    };
    if width > MAX_REPEAT_COUNT {
        return Err(reject_at(65, offset, "for range wider than 1000 iterations".to_owned()));
    }
    proof {
        lemma_children(*node);
        assert(node@.children[0] == node.children@[0]@);
    }
    match build_loop_body(numbers, node, 2, width, 1, offset) {
        Err(f) => Err(f),
        Ok(body) => {
            let s: UpdateStmt = UpdateStmt::For(
                node.children[0].text.clone(),
                to_i64(lo),
                to_i64(hi),
                body,
            );
            proof {
                assert(s@->For_3 =~= update_views(body@));
            }
            Ok(s)
        },
    }
}

/// Builds a loop. Its body keeps its structure; its counts and sizes are checked
/// here.
pub fn build_loop_stmt(numbers: &Numbers, node: &Node, offset: usize) -> (r: Result<
    UpdateStmt,
    Fault,
>)
    ensures
        stmt_result(r) == loop_of(numbers@, node@, offset),
    decreases node, 5nat, 0nat,
{
    proof {
        lemma_children(*node);
    }
    match node.rule {
        Rule::RepeatStmt => {
            if node.children.len() == 0 {
                return Err(reject(56));
            }
            let text: &String = &node.children[0].text;
            proof {
                assert(node@.children[0] == node.children@[0]@);
            }
            let raw: u64 = match parse_int_bound(numbers, text, offset, "repeat count") {
                Ok(v) => v,
                Err(f) => return Err(f),
            };
            match integer_between(raw, 1, MAX_REPEAT_COUNT) {
                None => {
                    let a: String = joined(
                        "repeat count must be an integer in 1..=1000, got `",
                        text,
                    );
                    Err(reject_at(65, offset, joined(&a, "`")))
                },
                Some(count) => {
                    let gate: Option<(bool, String)> = find_gate(&node.children);
                    let extra: u64 = match &gate {
                        Some(_) => 1,
                        None => 0,
                    };
                    match build_loop_body(numbers, node, 1, count, extra, offset) {
                        Err(f) => Err(f),
                        Ok(body) => {
                            let full: Vec<UpdateStmt> = add_gate(body, gate);
                            let s: UpdateStmt = UpdateStmt::Repeat(count as usize, full);
                            proof {
                                assert(s@->Repeat_1 =~= update_views(full@));
                            }
                            Ok(s)
                        },
                    }
                },
            }
        },
        Rule::ForStmt => {
            if node.children.len() < 1 {
                return Err(reject(56));
            }
            proof {
                assert(node@.children[0] == node.children@[0]@);
            }
            match check_let_name(&node.children[0].text, offset) {
                Some(f) => return Err(f),
                None => {},
            }
            if node.children.len() < 2 {
                return Err(reject(56));
            }
            let range: &Node = &node.children[1];
            proof {
                assert(node@.children[1] == range@);
                lemma_children(*range);
            }
            if range.children.len() < 2 {
                return Err(reject(56));
            }
            proof {
                assert(range@.children[0] == range.children@[0]@);
                assert(range@.children[1] == range.children@[1]@);
            }
            build_for(numbers, node, &range.children[0].text, &range.children[1].text, offset)
        },
        _ => Err(reject(56)),
    }
}

/// A condition out of its text.
pub open spec fn cond_of(n: NumbersView, c: Option<Seq<char>>) -> Result<
    Option<crate::expr::ExprView>,
    FaultView,
> {
    match c {
        None => Ok(None),
        Some(text) => match expr_text(n, text) {
            Ok(e) => Ok(Some(e)),
            Err(f) => Err(f),
        },
    }
}

/// A statement with its expressions resolved.
pub open spec fn let_of(n: NumbersView, s: UpdateView) -> Result<LetStmtView, FaultView>
    decreases s, 0nat,
{
    match s {
        UpdateView::Let(name, text) => match expr_text(n, text) {
            Ok(e) => Ok(LetStmtView::Let(name, e)),
            Err(f) => Err(f),
        },
        UpdateView::Repeat(count, body) => match lets_of(n, body, body.len()) {
            Ok(b) => Ok(LetStmtView::Repeat(count, b)),
            Err(f) => Err(f),
        },
        UpdateView::For(name, lo, hi, body) => match lets_of(n, body, body.len()) {
            Ok(b) => Ok(LetStmtView::For(name, lo, hi, b)),
            Err(f) => Err(f),
        },
        UpdateView::Break(c) => match cond_of(n, c) {
            Ok(c) => Ok(LetStmtView::Break(c)),
            Err(f) => Err(f),
        },
        UpdateView::Continue(c) => match cond_of(n, c) {
            Ok(c) => Ok(LetStmtView::Continue(c)),
            Err(f) => Err(f),
        },
        UpdateView::Until(text) => match expr_text(n, text) {
            Ok(e) => Ok(LetStmtView::Until(e)),
            Err(f) => Err(f),
        },
    }
}

/// The first `k` statements with their expressions resolved.
pub open spec fn lets_of(n: NumbersView, s: Seq<UpdateView>, k: nat) -> Result<
    Seq<LetStmtView>,
    FaultView,
>
    decreases s, k,
{
    if k == 0 || k > s.len() {
        Ok(Seq::empty())
    } else {
        match lets_of(n, s, (k - 1) as nat) {
            Err(f) => Err(f),
            Ok(lets) => match let_of(n, s[k - 1]) {
                Err(f) => Err(f),
                Ok(l) => Ok(lets.push(l)),
            },
        }
    }
}

/// The view of a result with resolved statements.
pub open spec fn lets_result(r: Result<Vec<LetStmt>, Fault>) -> Result<
    Seq<LetStmtView>,
    FaultView,
> {
    match r {
        Ok(s) => Ok(stmt_views(s@)),
        Err(f) => Err(f@),
    }
}

proof fn lemma_lets_fail(n: NumbersView, s: Seq<UpdateView>, k: nat, f: FaultView)
    requires
        0 < k <= s.len(),
        lets_of(n, s, k) == Err::<Seq<LetStmtView>, FaultView>(f),
    ensures
        lets_of(n, s, s.len()) == Err::<Seq<LetStmtView>, FaultView>(f),
    decreases s.len() - k,
{
    if k < s.len() {
        lemma_lets_fail(n, s, k + 1, f);
    }
}

fn to_cond(numbers: &Numbers, c: &Option<String>) -> (r: Result<Option<Expr>, Fault>)
    ensures
        cond_of(numbers@, text_view(*c)) == (match r {
            Ok(e) => Ok(cond_view(e)),
            Err(f) => Err(f@),
        }),
{
    match c {
        None => Ok(None),
        Some(text) => match parse_expr_str(numbers, text) {
            Ok(e) => Ok(Some(e)),
            Err(f) => Err(f),
        },
    }
}

fn to_let_stmt(numbers: &Numbers, s: &UpdateStmt) -> (r: Result<LetStmt, Fault>)
    ensures
        let_of(numbers@, s@) == (match r {
            Ok(l) => Ok(l@),
            Err(f) => Err(f@),
        }),
    decreases s, 0nat,
{
    match s {
        UpdateStmt::Let(name, text) => match parse_expr_str(numbers, text) {
            Ok(e) => Ok(LetStmt::Let(name.clone(), e)),
            Err(f) => Err(f),
        },
        UpdateStmt::Repeat(count, body) => {
            proof {
                assert(s@->Repeat_1 =~= update_views(body@));
            }
            match to_let_stmts(numbers, body) {
                Ok(b) => {
                    let l: LetStmt = LetStmt::Repeat(*count, b);
                    proof {
                        assert(l@->Repeat_1 =~= stmt_views(b@));
                    }
                    Ok(l)
                },
                Err(f) => Err(f),
            }
        },
        UpdateStmt::For(name, lo, hi, body) => {
            proof {
                assert(s@->For_3 =~= update_views(body@));
            }
            match to_let_stmts(numbers, body) {
                Ok(b) => {
                    let l: LetStmt = LetStmt::For(name.clone(), *lo, *hi, b);
                    proof {
                        assert(l@->For_3 =~= stmt_views(b@));
                    }
                    Ok(l)
                },
                Err(f) => Err(f),
            }
        },
        UpdateStmt::Break(c) => match to_cond(numbers, c) {
            Ok(c) => Ok(LetStmt::Break(c)),
            Err(f) => Err(f),
        },
        UpdateStmt::Continue(c) => match to_cond(numbers, c) {
            Ok(c) => Ok(LetStmt::Continue(c)),
            Err(f) => Err(f),
        },
        UpdateStmt::Until(text) => match parse_expr_str(numbers, text) {
            Ok(e) => Ok(LetStmt::Until(e)),
            Err(f) => Err(f),
        },
    }
}

/// Resolves the expressions of statements, keeping loops and jumps.
pub fn to_let_stmts(numbers: &Numbers, stmts: &Vec<UpdateStmt>) -> (r: Result<Vec<LetStmt>, Fault>)
    ensures
        lets_result(r) == lets_of(numbers@, update_views(stmts@), stmts@.len()),
    decreases stmts, 1nat,
{
    let ghost views = update_views(stmts@);
    let mut lets: Vec<LetStmt> = Vec::new();
    proof {
        assert(stmt_views(lets@) =~= Seq::<LetStmtView>::empty());
    }
    let mut i: usize = 0;
    while i < stmts.len()
        invariant
            i <= stmts.len(),
            views == update_views(stmts@),
            lets_of(numbers@, views, i as nat) == Ok::<Seq<LetStmtView>, FaultView>(
                stmt_views(lets@),
            ),
        decreases stmts.len() - i,
    {
        let ghost before = stmt_views(lets@);
        proof {
            assert(views[i as int] == stmts@[i as int]@);
            assert(decreases_to!(*stmts => stmts@[i as int]));
        }
        match to_let_stmt(numbers, &stmts[i]) {
            Ok(l) => {
                lets.push(l);
                proof {
                    assert(stmt_views(lets@) =~= before.push(l@));
                }
            },
            Err(f) => {
                proof {
                    lemma_lets_fail(numbers@, views, (i + 1) as nat, f@);
                }
                return Err(f);
            },
        }
        i = i + 1;
    }
    Ok(lets)
}

proof fn lemma_gated_size(body: Seq<UpdateView>, gate: Option<(bool, Seq<char>)>)
    ensures
        unrolled(gated(body, gate), gated(body, gate).len()) == unrolled(body, body.len())
            + gate_size(gate),
{
    let g = gated(body, gate);
    match gate {
        Some((true, cond)) => {
            assert(g =~= seq![g[0]] + body);
            lemma_size_behind(g[0], body, body.len());
        },
        Some((false, cond)) => {
            lemma_size_of_part(body, g, body.len());
            assert(unrolled(g, g.len()) == unrolled(g, body.len()) + unrolled_one(g.last()));
        },
        None => {},
    }
}

proof fn lemma_size_of_part(a: Seq<UpdateView>, b: Seq<UpdateView>, k: nat)
    requires
        k <= a.len() <= b.len(),
        forall|i: int| 0 <= i < a.len() ==> a[i] == b[i],
    ensures
        unrolled(a, k) == unrolled(b, k),
    decreases k,
{
    if k > 0 {
        lemma_size_of_part(a, b, (k - 1) as nat);
    }
}

proof fn lemma_size_behind(first: UpdateView, body: Seq<UpdateView>, k: nat)
    requires
        k <= body.len(),
    ensures
        unrolled(seq![first] + body, k + 1) == unrolled_one(first) + unrolled(body, k),
    decreases k,
{
    let all = seq![first] + body;
    if k == 0 {
        assert(unrolled(all, 0) == 0);
        assert(unrolled(all, 1) == unrolled(all, 0) + unrolled_one(all[0]));
    } else {
        lemma_size_behind(first, body, (k - 1) as nat);
        assert(all[k as int] == body[k - 1]);
    }
}

/// A loop that is accepted has a bounded number of iterations and unrolls into a bounded
/// number of statements, its gate or its index counted in every iteration.
pub proof fn law_loops_are_bounded(n: NumbersView, t: Tree, offset: usize)
    requires
        loop_of(n, t, offset) is Ok,
    ensures
        unrolled_one(loop_of(n, t, offset)->Ok_0) <= MAX_UNROLLED_STMTS,
        match loop_of(n, t, offset)->Ok_0 {
            UpdateView::Repeat(count, _) => 1 <= count <= MAX_REPEAT_COUNT,
            UpdateView::For(_, lo, hi, _) => hi - lo <= MAX_REPEAT_COUNT,
            _ => false,
        },
{
    let kids = t.children;
    match loop_of(n, t, offset)->Ok_0 {
        UpdateView::Repeat(count, body) => {
            let gate = gate_of(kids, kids.len());
            let plain = body_of(n, kids, 1, count as nat, gate_size(gate), offset)->Ok_0;
            lemma_gated_size(plain, gate);
            let more = unrolled(body, body.len()) as int;
            let c = count as int;
            assert(c * more == more * c) by (nonlinear_arith);
        },
        UpdateView::For(name, lo, hi, body) => {
            let size = unrolled(body, body.len()) as int;
            let raw_lo = int_bound(n, kids[1].children[0].text, offset, "for range start"@)->Ok_0;
            let raw_hi = int_bound(n, kids[1].children[1].text, offset, "for range end"@)->Ok_0;
            let width = range_width(raw_lo, raw_hi)->0 as int;
            if !(fits(raw_lo) && fits(raw_hi)) && raw_lo != raw_hi {
                lemma_rank_zero(raw_lo, raw_hi);
            }
            if hi > lo {
                assert(hi - lo == width);
                assert(width * (size + 1) == (size + 1) * width) by (nonlinear_arith);
            }
        },
        _ => {},
    }
}

} // verus!
