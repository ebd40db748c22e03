//! Lowering of statement lists: local bindings and bounded loops, unrolled to
//! straight-line code. Where a loop holds `break` or `continue`, its bindings are
//! guarded by run flags that hold one or zero.

use crate::eir::{Instruction, Opcode, Real, ONE};
use crate::emit::{
    binary, bits_of, bits_reg, blend, blend_of, const_of, const_reg, emit_state, op_of, or_gate,
    or_gate_of, truthy, truthy_of, unless_gate, unless_of, Emit,
};
use crate::expr::{controlled, has_control, stmt_views, Expr, ExprView, LetStmt, LetStmtView};
use crate::lower::{lower_expr, lower_expr_spec};
use crate::names::{assoc_insert, NameMap};
use crate::scope::{CtxView, LowerParts, PartsView};
use vstd::prelude::*;

verus! {

/// The registers of the locals.
pub type Locals = Seq<(Seq<char>, u32)>;

/// The state after part of a block: the code, the locals, the flag that the rest
/// of the block is skipped, and the flag that a `break` fired.
pub struct Block {
    pub s: Emit,
    pub locals: Locals,
    pub skip: Option<u32>,
    pub broke: Option<u32>,
}

/// The state after part of a loop: the code, the locals, the run flag of the last
/// iteration, and the flag that a `break` fired in one.
pub struct Loop {
    pub s: Emit,
    pub locals: Locals,
    pub run: u32,
    pub broke: Option<u32>,
}

/// The binding of a loop index. Under a run flag the earlier value stays where the
/// flag is zero.
pub open spec fn bind_index(
    name: Seq<char>,
    value: i64,
    run: Option<u32>,
    p: PartsView,
    s: Emit,
    locals: Locals,
) -> (Emit, Locals) {
    let (s, lit) = const_of(s, Real::Int(value));
    match run {
        None => (s, assoc_insert(locals, name, lit)),
        Some(r) => {
            let ctx = CtxView { parts: p, locals };
            let (s, prev) = lower_expr_spec(ExprView::Name(name), ctx, s);
            let (s, new) = blend_of(s, prev, r, lit);
            (s, assoc_insert(locals, name, new))
        },
    }
}

/// The index binding of iteration `k`, for a loop that has an index.
pub open spec fn bind_iteration(
    index: Option<(Seq<char>, i64)>,
    k: nat,
    run: Option<u32>,
    p: PartsView,
    s: Emit,
    locals: Locals,
) -> (Emit, Locals) {
    match index {
        None => (s, locals),
        Some((name, lo)) => bind_index(name, (lo + k) as i64, run, p, s, locals),
    }
}

/// The first `k` iterations of a loop without jumps.
pub open spec fn loop_plain(
    body: Seq<LetStmtView>,
    index: Option<(Seq<char>, i64)>,
    k: nat,
    run: Option<u32>,
    p: PartsView,
    s: Emit,
    locals: Locals,
) -> (Emit, Locals)
    decreases body, 1nat, k,
{
    if k == 0 {
        (s, locals)
    } else {
        let (s, locals) = loop_plain(body, index, (k - 1) as nat, run, p, s, locals);
        let (s, locals) = bind_iteration(index, (k - 1) as nat, run, p, s, locals);
        let b = lower_stmts(body, body.len(), run, p, s, locals);
        (b.s, b.locals)
    }
}

/// The first `k` iterations of a loop with jumps: each runs where the one before
/// ran and no `break` fired.
pub open spec fn loop_controlled(
    body: Seq<LetStmtView>,
    index: Option<(Seq<char>, i64)>,
    k: nat,
    run: u32,
    p: PartsView,
    s: Emit,
    locals: Locals,
) -> Loop
    decreases body, 1nat, k,
{
    if k == 0 {
        Loop { s, locals, run, broke: None }
    } else {
        let l = loop_controlled(body, index, (k - 1) as nat, run, p, s, locals);
        let (s, run_k) = match l.broke {
            None => (l.s, l.run),
            Some(b) => unless_of(l.s, Some(l.run), b),
        };
        let (s, locals) = bind_iteration(index, (k - 1) as nat, Some(run_k), p, s, l.locals);
        let b = lower_stmts(body, body.len(), Some(run_k), p, s, locals);
        let (s, broke) = match b.broke {
            None => (b.s, l.broke),
            Some(bb) => {
                let (s, g) = or_gate_of(b.s, l.broke, bb);
                (s, Some(g))
            },
        };
        Loop { s, locals: b.locals, run: run_k, broke }
    }
}

/// A whole loop of `count` iterations inside a block.
pub open spec fn lower_loop(
    body: Seq<LetStmtView>,
    index: Option<(Seq<char>, i64)>,
    count: nat,
    run: Option<u32>,
    p: PartsView,
    b: Block,
) -> Block
    decreases body, 1nat, count + 1,
{
    let (s, enter) = match b.skip {
        None => (b.s, run),
        Some(sk) => {
            let (s, g) = unless_of(b.s, run, sk);
            (s, Some(g))
        },
    };
    if !controlled(body) {
        let (s, locals) = loop_plain(body, index, count, enter, p, s, b.locals);
        Block { s, locals, ..b }
    } else {
        let (s, first) = match enter {
            Some(g) => (s, g),
            None => bits_of(s, ONE),
        };
        let l = loop_controlled(body, index, count, first, p, s, b.locals);
        Block { s: l.s, locals: l.locals, ..b }
    }
}

/// The code up to the flag that a jump fires, and that flag.
pub open spec fn fired_of(
    cond: Option<ExprView>,
    run: Option<u32>,
    skip: Option<u32>,
    ctx: CtxView,
    s: Emit,
) -> (Emit, u32) {
    let (s, c) = match cond {
        Some(e) => {
            let (s, r) = lower_expr_spec(e, ctx, s);
            truthy_of(s, r)
        },
        None => bits_of(s, ONE),
    };
    let (s, one) = bits_of(s, ONE);
    let (s, r) = match run {
        Some(r) => (s, r),
        None => bits_of(s, ONE),
    };
    let (s, fired) = op_of(s, Opcode::Mul, seq![r, c]);
    match skip {
        None => (s, fired),
        Some(sk) => {
            let (s, ns) = op_of(s, Opcode::Sub, seq![one, sk]);
            op_of(s, Opcode::Mul, seq![fired, ns])
        },
    }
}

/// A `break` or `continue`, where its condition and the run flag hold and the flag
/// `past` does not.
pub open spec fn lower_jump(
    cond: Option<ExprView>,
    is_break: bool,
    past: Option<u32>,
    run: Option<u32>,
    p: PartsView,
    b: Block,
) -> Block {
    let ctx = CtxView { parts: p, locals: b.locals };
    let (s, fired) = fired_of(cond, run, past, ctx, b.s);
    let (s, skip) = or_gate_of(s, b.skip, fired);
    if is_break {
        let (s, broke) = or_gate_of(s, b.broke, fired);
        Block { s, locals: b.locals, skip: Some(skip), broke: Some(broke) }
    } else {
        Block { s, locals: b.locals, skip: Some(skip), broke: b.broke }
    }
}

/// A local binding. Under a run flag the earlier value stays where the flag is
/// zero.
pub open spec fn lower_let(
    name: Seq<char>,
    e: ExprView,
    run: Option<u32>,
    p: PartsView,
    b: Block,
) -> Block {
    let ctx = CtxView { parts: p, locals: b.locals };
    let (s, computed) = lower_expr_spec(e, ctx, b.s);
    match run {
        None => Block { s, locals: assoc_insert(b.locals, name, computed), ..b },
        Some(r) => {
            let (s, g) = match b.skip {
                None => (s, r),
                Some(sk) => unless_of(s, Some(r), sk),
            };
            let (s, prev) = lower_expr_spec(ExprView::Name(name), ctx, s);
            let (s, new) = blend_of(s, prev, g, computed);
            Block { s, locals: assoc_insert(b.locals, name, new), ..b }
        },
    }
}

/// The number of iterations of `for i in lo..hi`.
pub open spec fn range_count(lo: i64, hi: i64) -> nat {
    if lo < hi {
        (hi - lo) as nat
    } else {
        0
    }
}

/// One statement of a block. Jumps do not count where the rest of the block is skipped,
/// but an `until` does: it stands behind what a `continue` skips.
pub open spec fn lower_stmt(
    st: LetStmtView,
    run: Option<u32>,
    p: PartsView,
    b: Block,
) -> Block
    decreases st, 2nat, 0nat,
{
    match st {
        LetStmtView::Let(name, e) => lower_let(name, e, run, p, b),
        LetStmtView::Break(cond) => lower_jump(cond, true, b.skip, run, p, b),
        LetStmtView::Continue(cond) => lower_jump(cond, false, b.skip, run, p, b),
        LetStmtView::Until(e) => lower_jump(Some(e), true, None, run, p, b),
        LetStmtView::Repeat(n, body) => lower_loop(body, None, n as nat, run, p, b),
        LetStmtView::For(name, lo, hi, body) => lower_loop(
            body,
            Some((name, lo)),
            range_count(lo, hi),
            run,
            p,
            b,
        ),
    }
}

/// The first `n` statements of a block under an optional run flag.
pub open spec fn lower_stmts(
    stmts: Seq<LetStmtView>,
    n: nat,
    run: Option<u32>,
    p: PartsView,
    s: Emit,
    locals: Locals,
) -> Block
    decreases stmts, 0nat, n,
{
    if n == 0 || n > stmts.len() {
        Block { s, locals, skip: None, broke: None }
    } else {
        lower_stmt(stmts[n - 1], run, p, lower_stmts(stmts, (n - 1) as nat, run, p, s, locals))
    }
}

/// Binds a loop index.
pub fn bind_loop_index(
    name: &String,
    value: i64,
    run: Option<u32>,
    next_id: &mut u32,
    out: &mut Vec<Instruction>,
    locals: &mut NameMap<u32>,
    parts: &LowerParts<'_>,
)
    ensures
        (emit_state(*final(next_id), final(out)@), final(locals)@) == bind_index(
            name@,
            value,
            run,
            parts@,
            emit_state(*old(next_id), old(out)@),
            old(locals)@,
        ),
{
    let lit: u32 = const_reg(Real::Int(value), next_id, out);
    match run {
        None => {
            locals.insert(name.clone(), lit);
        },
        Some(r) => {
            let prev: u32 = lower_expr(
                &Expr::Name(name.clone()),
                &parts.ctx(locals),
                next_id,
                out,
            );
            let new: u32 = blend(prev, r, lit, next_id, out);
            locals.insert(name.clone(), new);
        },
    }
}

/// Lowers a loop inside a block.
fn lower_loop_body(
    body: &Vec<LetStmt>,
    index: Option<(&String, i64)>,
    count: u64,
    run: Option<u32>,
    skip: Option<u32>,
    next_id: &mut u32,
    out: &mut Vec<Instruction>,
    locals: &mut NameMap<u32>,
    parts: &LowerParts<'_>,
)
    requires
        index matches Some((_, lo)) ==> lo + count <= i64::MAX,
    ensures
        forall|broke: Option<u32>|
            (Block {
                s: emit_state(*final(next_id), final(out)@),
                locals: final(locals)@,
                skip,
                broke,
            }) == #[trigger] lower_loop(
                stmt_views(body@),
                index_view(index),
                count as nat,
                run,
                parts@,
                Block {
                    s: emit_state(*old(next_id), old(out)@),
                    locals: old(locals)@,
                    skip,
                    broke,
                },
            ),
    decreases body, 1nat,
{
    let ghost views = stmt_views(body@);
    let ghost idx = index_view(index);
    let ghost p = parts@;
    let enter: Option<u32> = match skip {
        None => run,
        Some(sk) => Some(unless_gate(run, sk, next_id, out)),
    };
    if !has_control(body) {
        let ghost start = emit_state(*next_id, out@);
        let ghost locals0 = locals@;
        let mut k: u64 = 0;
        while k < count
            invariant
                k <= count,
                views == stmt_views(body@),
                idx == index_view(index),
                p == parts@,
                index matches Some((_, lo)) ==> lo + count <= i64::MAX,
                (emit_state(*next_id, out@), locals@) == loop_plain(
                    views,
                    idx,
                    k as nat,
                    enter,
                    p,
                    start,
                    locals0,
                ),
            decreases count - k,
        {
            if let Some((name, lo)) = index {
                let value: i64 = (lo as i128 + k as i128) as i64;
                bind_loop_index(name, value, enter, next_id, out, locals, parts);
            }
            let _ = lower_let_block(body, enter, next_id, out, locals, parts);
            k = k + 1;
        }
    } else {
        let first: u32 = match enter {
            Some(g) => g,
            None => bits_reg(ONE, next_id, out),
        };
        let ghost start = emit_state(*next_id, out@);
        let ghost locals0 = locals@;
        let mut run_prev: u32 = first;
        let mut broke_inner: Option<u32> = None;
        let mut k: u64 = 0;
        while k < count
            invariant
                k <= count,
                views == stmt_views(body@),
                idx == index_view(index),
                p == parts@,
                index matches Some((_, lo)) ==> lo + count <= i64::MAX,
                (Loop {
                    s: emit_state(*next_id, out@),
                    locals: locals@,
                    run: run_prev,
                    broke: broke_inner,
                }) == loop_controlled(views, idx, k as nat, first, p, start, locals0),
            decreases count - k,
        {
            let run_k: u32 = match broke_inner {
                None => run_prev,
                Some(b) => unless_gate(Some(run_prev), b, next_id, out),
            };
            if let Some((name, lo)) = index {
                let value: i64 = (lo as i128 + k as i128) as i64;
                bind_loop_index(name, value, Some(run_k), next_id, out, locals, parts);
            }
            let b: Option<u32> = lower_let_block(body, Some(run_k), next_id, out, locals, parts);
            if let Some(bb) = b {
                broke_inner = Some(or_gate(broke_inner, bb, next_id, out));
            }
            run_prev = run_k;
            k = k + 1;
        }
    }
}

/// The value of an optional loop index.
pub open spec fn index_view(index: Option<(&String, i64)>) -> Option<(Seq<char>, i64)> {
    match index {
        Some((name, lo)) => Some((name@, lo)),
        None => None,
    }
}

/// Lowers a local binding.
fn lower_binding(
    name: &String,
    expr: &Expr,
    run: Option<u32>,
    skip: Option<u32>,
    next_id: &mut u32,
    out: &mut Vec<Instruction>,
    locals: &mut NameMap<u32>,
    parts: &LowerParts<'_>,
)
    ensures
        forall|broke: Option<u32>|
            (Block {
                s: emit_state(*final(next_id), final(out)@),
                locals: final(locals)@,
                skip,
                broke,
            }) == #[trigger] lower_let(
                name@,
                expr@,
                run,
                parts@,
                Block {
                    s: emit_state(*old(next_id), old(out)@),
                    locals: old(locals)@,
                    skip,
                    broke,
                },
            ),
{
    let computed: u32 = lower_expr(expr, &parts.ctx(locals), next_id, out);
    match run {
        None => {
            locals.insert(name.clone(), computed);
        },
        Some(r) => {
            let flag: u32 = match skip {
                None => r,
                Some(sk) => unless_gate(Some(r), sk, next_id, out),
            };
            let prev: u32 = lower_expr(
                &Expr::Name(name.clone()),
                &parts.ctx(locals),
                next_id,
                out,
            );
            let new: u32 = blend(prev, flag, computed, next_id, out);
            locals.insert(name.clone(), new);
        },
    }
}

/// Computes [`range_count`].
fn range_len(lo: i64, hi: i64) -> (r: u64)
    ensures
        r == range_count(lo, hi),
        r > 0 ==> lo + r == hi,
{
    if lo < hi {
        (hi as i128 - lo as i128) as u64
    } else {
        0
    }
}

/// The value of an optional condition.
pub open spec fn condition(cond: Option<&Expr>) -> Option<ExprView> {
    match cond {
        Some(e) => Some(e@),
        None => None,
    }
}

/// Lowers a jump.
fn lower_jump_stmt(
    cond: Option<&Expr>,
    is_break: bool,
    past: Option<u32>,
    run: Option<u32>,
    flags: (Option<u32>, Option<u32>),
    next_id: &mut u32,
    out: &mut Vec<Instruction>,
    locals: &NameMap<u32>,
    parts: &LowerParts<'_>,
) -> (r: (Option<u32>, Option<u32>))
    ensures
        (Block {
            s: emit_state(*final(next_id), final(out)@),
            locals: locals@,
            skip: r.0,
            broke: r.1,
        }) == lower_jump(
            condition(cond),
            is_break,
            past,
            run,
            parts@,
            Block {
                s: emit_state(*old(next_id), old(out)@),
                locals: locals@,
                skip: flags.0,
                broke: flags.1,
            },
        ),
{
    let fired: u32 = lower_fired(cond, run, past, next_id, out, locals, parts);
    let skipped: u32 = or_gate(flags.0, fired, next_id, out);
    if is_break {
        let stopped: u32 = or_gate(flags.1, fired, next_id, out);
        (Some(skipped), Some(stopped))
    } else {
        (Some(skipped), flags.1)
    }
}

/// Lowers one statement; the flags are those that skip the rest of the block and
/// that a `break` fired.
#[verifier::rlimit(60)]
fn lower_statement(
    stmt: &LetStmt,
    run: Option<u32>,
    flags: (Option<u32>, Option<u32>),
    next_id: &mut u32,
    out: &mut Vec<Instruction>,
    locals: &mut NameMap<u32>,
    parts: &LowerParts<'_>,
) -> (r: (Option<u32>, Option<u32>))
    ensures
        (Block {
            s: emit_state(*final(next_id), final(out)@),
            locals: final(locals)@,
            skip: r.0,
            broke: r.1,
        }) == lower_stmt(
            stmt@,
            run,
            parts@,
            Block {
                s: emit_state(*old(next_id), old(out)@),
                locals: old(locals)@,
                skip: flags.0,
                broke: flags.1,
            },
        ),
    decreases stmt, 2nat,
{
    let skip: Option<u32> = flags.0;
    let broke: Option<u32> = flags.1;
    let ghost before = Block { s: emit_state(*next_id, out@), locals: locals@, skip, broke };
    match stmt {
        LetStmt::Let(name, expr) => {
            lower_binding(name, expr, run, skip, next_id, out, locals, parts);
            proof {
                assert((Block { s: emit_state(*next_id, out@), locals: locals@, skip, broke })
                    == lower_let(name@, expr@, run, parts@, before));
            }
            (skip, broke)
        },
        LetStmt::Break(cond) => lower_jump_stmt(
            cond.as_ref(),
            true,
            skip,
            run,
            flags,
            next_id,
            out,
            locals,
            parts,
        ),
        LetStmt::Continue(cond) => lower_jump_stmt(
            cond.as_ref(),
            false,
            skip,
            run,
            flags,
            next_id,
            out,
            locals,
            parts,
        ),
        LetStmt::Until(e) => lower_jump_stmt(
            Some(e),
            true,
            None,
            run,
            flags,
            next_id,
            out,
            locals,
            parts,
        ),
        LetStmt::Repeat(n, body) => {
            proof {
                assert(stmt@->Repeat_1 =~= stmt_views(body@));
            }
            lower_loop_body(body, None, *n as u64, run, skip, next_id, out, locals, parts);
            proof {
                assert((Block { s: emit_state(*next_id, out@), locals: locals@, skip, broke })
                    == lower_loop(stmt_views(body@), None, *n as nat, run, parts@, before));
            }
            (skip, broke)
        },
        LetStmt::For(name, lo, hi, body) => {
            proof {
                assert(stmt@->For_3 =~= stmt_views(body@));
            }
            let count: u64 = range_len(*lo, *hi);
            lower_loop_body(
                body,
                Some((name, *lo)),
                count,
                run,
                skip,
                next_id,
                out,
                locals,
                parts,
            );
            proof {
                assert((Block { s: emit_state(*next_id, out@), locals: locals@, skip, broke })
                    == lower_loop(
                    stmt_views(body@),
                    Some((name@, *lo)),
                    range_count(*lo, *hi),
                    run,
                    parts@,
                    before,
                ));
            }
            (skip, broke)
        },
    }
}

/// Lowers a statement list under an optional run flag and returns the flag that a
/// `break` fired in it. A `break` leaves the innermost loop only. Guarded
/// expressions are evaluated in any case; their results count only where the flag
/// is one.
pub fn lower_let_block(
    stmts: &Vec<LetStmt>,
    run: Option<u32>,
    next_id: &mut u32,
    out: &mut Vec<Instruction>,
    locals: &mut NameMap<u32>,
    parts: &LowerParts<'_>,
) -> (broke: Option<u32>)
    ensures
        ({
            let b = lower_stmts(
                stmt_views(stmts@),
                stmts@.len(),
                run,
                parts@,
                emit_state(*old(next_id), old(out)@),
                old(locals)@,
            );
            b.s == emit_state(*final(next_id), final(out)@) && b.locals == final(locals)@ && b.broke
                == broke
        }),
    decreases stmts, 0nat,
{
    let ghost views = stmt_views(stmts@);
    let ghost start = emit_state(*next_id, out@);
    let ghost locals0 = locals@;
    let mut skip: Option<u32> = None;
    let mut broke: Option<u32> = None;
    let mut i: usize = 0;
    while i < stmts.len()
        invariant
            i <= stmts.len(),
            views == stmt_views(stmts@),
            (Block { s: emit_state(*next_id, out@), locals: locals@, skip, broke }) == lower_stmts(
                views,
                i as nat,
                run,
                parts@,
                start,
                locals0,
            ),
        decreases stmts.len() - i,
    {
        proof {
            assert(views[i as int] == stmts@[i as int]@);
        }
        let flags: (Option<u32>, Option<u32>) = lower_statement(
            &stmts[i],
            run,
            (skip, broke),
            next_id,
            out,
            locals,
            parts,
        );
        skip = flags.0;
        broke = flags.1;
        i = i + 1;
    }
    broke
}

fn lower_fired(
    cond: Option<&Expr>,
    run: Option<u32>,
    skip: Option<u32>,
    next_id: &mut u32,
    out: &mut Vec<Instruction>,
    locals: &NameMap<u32>,
    parts: &LowerParts<'_>,
) -> (r: u32)
    ensures
        (emit_state(*final(next_id), final(out)@), r) == fired_of(
            condition(cond),
            run,
            skip,
            CtxView { parts: parts@, locals: locals@ },
            emit_state(*old(next_id), old(out)@),
        ),
{
    let c: u32 = match cond {
        Some(e) => {
            let r: u32 = lower_expr(e, &parts.ctx(locals), next_id, out);
            truthy(r, next_id, out)
        },
        None => bits_reg(ONE, next_id, out),
    };
    let one: u32 = bits_reg(ONE, next_id, out);
    let r: u32 = match run {
        Some(r) => r,
        None => bits_reg(ONE, next_id, out),
    };
    let fired: u32 = binary(Opcode::Mul, r, c, next_id, out);
    match skip {
        None => fired,
        Some(sk) => {
            let ns: u32 = binary(Opcode::Sub, one, sk, next_id, out);
            binary(Opcode::Mul, fired, ns, next_id, out)
        },
    }
}

} // verus!
