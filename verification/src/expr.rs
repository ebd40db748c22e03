//! Expressions and statements of rule bodies, in resolved form.

use vstd::prelude::*;

verus! {

/// A property of another entity (`@name.<kind>`).
#[derive(Clone, Copy, Debug, PartialEq, Eq, Structural)]
pub enum PropKind {
    Mass,
    IsDynamic,
    PositionX,
    PositionY,
    PositionZ,
    VelocityX,
    VelocityY,
    VelocityZ,
    State(usize),
}

/// An arithmetic operator.
#[derive(Clone, Copy, Debug, PartialEq, Eq, Structural)]
pub enum ArithOp {
    Add,
    Sub,
    Mul,
    Div,
    Rem,
}

/// A comparison operator.
#[derive(Clone, Copy, Debug, PartialEq, Eq, Structural)]
pub enum Relation {
    Lt,
    Le,
    Gt,
    Ge,
    Eq,
    Ne,
}

/// A scalar expression.
#[derive(Debug)]
pub enum Expr {
    /// A literal, by the bits of the double.
    Const(u64),
    /// A state slot `sN` of the own entity.
    Slot(usize),
    /// The state slot at an index computed at run time, `s[i]`.
    SlotDyn(Box<Expr>),
    Arith(ArithOp, Box<Expr>, Box<Expr>),
    /// A comparison, one or zero.
    Compare(Relation, Box<Expr>, Box<Expr>),
    And(Box<Expr>, Box<Expr>),
    Or(Box<Expr>, Box<Expr>),
    Not(Box<Expr>),
    Neg(Box<Expr>),
    /// A call of a built-in or of a declared function.
    Call(String, Vec<Expr>),
    /// A state slot of another entity, `@name.sN`.
    Ref(String, usize),
    /// A name: a local, a named slot, a parameter, or a named slot of another
    /// entity.
    Name(String),
    /// A property of another entity.
    PropRef(String, PropKind),
    /// The simulation clock.
    Time,
}

/// The mathematical value of an [`Expr`].
pub enum ExprView {
    Const(u64),
    Slot(usize),
    SlotDyn(Box<ExprView>),
    Arith(ArithOp, Box<ExprView>, Box<ExprView>),
    Compare(Relation, Box<ExprView>, Box<ExprView>),
    And(Box<ExprView>, Box<ExprView>),
    Or(Box<ExprView>, Box<ExprView>),
    Not(Box<ExprView>),
    Neg(Box<ExprView>),
    Call(Seq<char>, Seq<ExprView>),
    Ref(Seq<char>, usize),
    Name(Seq<char>),
    PropRef(Seq<char>, PropKind),
    Time,
}

impl Expr {
    /// The mathematical value.
    pub open spec fn model(&self) -> ExprView
        decreases self,
    {
        match self {
            Expr::Const(c) => ExprView::Const(*c),
            Expr::Slot(i) => ExprView::Slot(*i),
            Expr::SlotDyn(i) => ExprView::SlotDyn(Box::new(i.model())),
            Expr::Arith(op, a, b) => ExprView::Arith(*op, Box::new(a.model()), Box::new(b.model())),
            Expr::Compare(op, a, b) => ExprView::Compare(
                *op,
                Box::new(a.model()),
                Box::new(b.model()),
            ),
            Expr::And(a, b) => ExprView::And(Box::new(a.model()), Box::new(b.model())),
            Expr::Or(a, b) => ExprView::Or(Box::new(a.model()), Box::new(b.model())),
            Expr::Not(a) => ExprView::Not(Box::new(a.model())),
            Expr::Neg(a) => ExprView::Neg(Box::new(a.model())),
            Expr::Call(name, args) => ExprView::Call(
                name@,
                Seq::new(
                    args@.len(),
                    |i: int|
                        if 0 <= i < args@.len() {
                            args@[i].model()
                        } else {
                            ExprView::Time
                        },
                ),
            ),
            Expr::Ref(name, slot) => ExprView::Ref(name@, *slot),
            Expr::Name(name) => ExprView::Name(name@),
            Expr::PropRef(name, kind) => ExprView::PropRef(name@, *kind),
            Expr::Time => ExprView::Time,
        }
    }
}

impl View for Expr {
    type V = ExprView;

    open spec fn view(&self) -> ExprView {
        self.model()
    }
}

impl Expr {
    /// A copy of the expression.
    pub fn duplicate(&self) -> (r: Expr)
        ensures
            r@ == self@,
        decreases self,
    {
        match self {
            Expr::Const(c) => Expr::Const(*c),
            Expr::Slot(i) => Expr::Slot(*i),
            Expr::SlotDyn(i) => Expr::SlotDyn(Box::new(i.duplicate())),
            Expr::Arith(op, a, b) => Expr::Arith(
                *op,
                Box::new(a.duplicate()),
                Box::new(b.duplicate()),
            ),
            Expr::Compare(op, a, b) => Expr::Compare(
                *op,
                Box::new(a.duplicate()),
                Box::new(b.duplicate()),
            ),
            Expr::And(a, b) => Expr::And(Box::new(a.duplicate()), Box::new(b.duplicate())),
            Expr::Or(a, b) => Expr::Or(Box::new(a.duplicate()), Box::new(b.duplicate())),
            Expr::Not(a) => Expr::Not(Box::new(a.duplicate())),
            Expr::Neg(a) => Expr::Neg(Box::new(a.duplicate())),
            Expr::Call(name, args) => {
                let mut copies: Vec<Expr> = Vec::new();
                let mut i: usize = 0;
                while i < args.len()
                    invariant
                        i <= args.len(),
                        copies@.len() == i,
                        forall|k: int| 0 <= k < i ==> (#[trigger] copies@[k])@ == args@[k]@,
                        *self == Expr::Call(*name, *args),
                    decreases args.len() - i,
                {
                    proof {
                        assert(decreases_to!(*self => self->Call_1@[i as int]));
                    }
                    copies.push(args[i].duplicate());
                    i = i + 1;
                }
                let r = Expr::Call(name.clone(), copies);
                proof {
                    assert(r@->Call_1 =~= self@->Call_1);
                }
                r
            },
            Expr::Ref(name, slot) => Expr::Ref(name.clone(), *slot),
            Expr::Name(name) => Expr::Name(name.clone()),
            Expr::PropRef(name, kind) => Expr::PropRef(name.clone(), *kind),
            Expr::Time => Expr::Time,
        }
    }
}

/// The values of a sequence of expressions.
pub open spec fn expr_views(s: Seq<Expr>) -> Seq<ExprView> {
    s.map_values(|e: Expr| e@)
}

/// A resolved statement: a local binding, a bounded loop, or a jump inside one.
#[derive(Debug)]
pub enum LetStmt {
    Let(String, Expr),
    Repeat(usize, Vec<LetStmt>),
    /// `for name in lo..hi`, the bounds integers.
    For(String, i64, i64, Vec<LetStmt>),
    Break(Option<Expr>),
    Continue(Option<Expr>),
    /// The end of an iteration of `repeat n until cond`.
    Until(Expr),
}

/// The mathematical value of a [`LetStmt`].
pub enum LetStmtView {
    Let(Seq<char>, ExprView),
    Repeat(usize, Seq<LetStmtView>),
    For(Seq<char>, i64, i64, Seq<LetStmtView>),
    Break(Option<ExprView>),
    Continue(Option<ExprView>),
    Until(ExprView),
}

/// The value of an optional condition.
pub open spec fn cond_view(c: Option<Expr>) -> Option<ExprView> {
    match c {
        Some(e) => Some(e@),
        None => None,
    }
}

impl LetStmt {
    /// The mathematical value.
    pub open spec fn model(&self) -> LetStmtView
        decreases self,
    {
        match self {
            LetStmt::Let(name, e) => LetStmtView::Let(name@, e@),
            LetStmt::Repeat(n, body) => LetStmtView::Repeat(
                *n,
                Seq::new(
                    body@.len(),
                    |i: int|
                        if 0 <= i < body@.len() {
                            body@[i].model()
                        } else {
                            LetStmtView::Break(None)
                        },
                ),
            ),
            LetStmt::For(name, lo, hi, body) => LetStmtView::For(
                name@,
                *lo,
                *hi,
                Seq::new(
                    body@.len(),
                    |i: int|
                        if 0 <= i < body@.len() {
                            body@[i].model()
                        } else {
                            LetStmtView::Break(None)
                        },
                ),
            ),
            LetStmt::Break(c) => LetStmtView::Break(cond_view(*c)),
            LetStmt::Continue(c) => LetStmtView::Continue(cond_view(*c)),
            LetStmt::Until(e) => LetStmtView::Until(e@),
        }
    }
}

impl View for LetStmt {
    type V = LetStmtView;

    open spec fn view(&self) -> LetStmtView {
        self.model()
    }
}

/// The values of a sequence of statements.
pub open spec fn stmt_views(s: Seq<LetStmt>) -> Seq<LetStmtView> {
    s.map_values(|e: LetStmt| e@)
}

/// Whether a name is one of the spatial queries.
pub open spec fn is_query_name(name: Seq<char>) -> bool {
    name == "neighbor_count"@ || name == "nearest_dist"@ || name == "neighbor_mean"@ || name
        == "nearest_dx"@ || name == "nearest_dy"@ || name == "nearest_dz"@
}

/// Decides [`is_query_name`].
pub fn query_name(name: &String) -> (r: bool)
    ensures
        r == is_query_name(name@),
{
    crate::names::same(name, "neighbor_count") || crate::names::same(name, "nearest_dist")
        || crate::names::same(name, "neighbor_mean") || crate::names::same(name, "nearest_dx")
        || crate::names::same(name, "nearest_dy") || crate::names::same(name, "nearest_dz")
}

/// Whether a spatial query occurs in an expression.
pub open spec fn has_query(e: ExprView) -> bool
    decreases e,
{
    match e {
        ExprView::Call(name, args) => is_query_name(name) || any_has_query(args),
        ExprView::Arith(_, a, b) => has_query(*a) || has_query(*b),
        ExprView::Compare(_, a, b) => has_query(*a) || has_query(*b),
        ExprView::And(a, b) => has_query(*a) || has_query(*b),
        ExprView::Or(a, b) => has_query(*a) || has_query(*b),
        ExprView::Not(a) => has_query(*a),
        ExprView::Neg(a) => has_query(*a),
        ExprView::SlotDyn(a) => has_query(*a),
        _ => false,
    }
}

/// Whether a spatial query occurs in one of several expressions.
pub open spec fn any_has_query(args: Seq<ExprView>) -> bool
    decreases args,
{
    args.len() > 0 && (has_query(args[0]) || any_has_query(args.drop_first()))
}

/// Decides whether an expression holds a spatial query. Queries need a
/// per-entity context, which function bodies do not have.
pub fn expr_has_query(expr: &Expr) -> (r: bool)
    ensures
        r == has_query(expr@),
    decreases expr,
{
    match expr {
        Expr::Call(name, args) => {
            if query_name(name) {
                return true;
            }
            let ghost views = expr_views(args@);
            let mut i: usize = 0;
            proof {
                assert(expr@ == ExprView::Call(name@, views)) by {
                    assert(expr@->Call_1 =~= views);
                }
                assert(views.skip(0) =~= views);
            }
            while i < args.len()
                invariant
                    i <= args.len(),
                    views == expr_views(args@),
                    any_has_query(views) == any_has_query(views.skip(i as int)),
                    expr@ == ExprView::Call(name@, views),
                    expr == Expr::Call(*name, *args),
                decreases args.len() - i,
            {
                proof {
                    assert(views.skip(i as int)[0] == args@[i as int]@);
                    assert(views.skip(i as int).drop_first() =~= views.skip(i + 1));
                }
                if expr_has_query(&args[i]) {
                    return true;
                }
                i = i + 1;
            }
            false
        },
        Expr::Arith(_, a, b) => expr_has_query(a) || expr_has_query(b),
        Expr::Compare(_, a, b) => expr_has_query(a) || expr_has_query(b),
        Expr::And(a, b) => expr_has_query(a) || expr_has_query(b),
        Expr::Or(a, b) => expr_has_query(a) || expr_has_query(b),
        Expr::Not(a) => expr_has_query(a),
        Expr::Neg(a) => expr_has_query(a),
        Expr::SlotDyn(a) => expr_has_query(a),
        _ => false,
    }
}

/// Whether a spatial query occurs in a statement list.
pub open spec fn stmts_query(s: Seq<LetStmtView>) -> bool
    decreases s,
{
    s.len() > 0 && ((match s[0] {
        LetStmtView::Let(_, e) => has_query(e),
        LetStmtView::Repeat(_, body) => stmts_query(body),
        LetStmtView::For(_, _, _, body) => stmts_query(body),
        LetStmtView::Break(Some(e)) => has_query(e),
        LetStmtView::Continue(Some(e)) => has_query(e),
        LetStmtView::Until(e) => has_query(e),
        _ => false,
    }) || stmts_query(s.drop_first()))
}

/// Decides whether a statement list holds a spatial query anywhere.
pub fn stmts_have_query(stmts: &Vec<LetStmt>) -> (r: bool)
    ensures
        r == stmts_query(stmt_views(stmts@)),
    decreases stmts,
{
    let ghost views = stmt_views(stmts@);
    let mut i: usize = 0;
    proof {
        assert(views.skip(0) =~= views);
    }
    while i < stmts.len()
        invariant
            i <= stmts.len(),
            views == stmt_views(stmts@),
            stmts_query(views) == stmts_query(views.skip(i as int)),
        decreases stmts.len() - i,
    {
        proof {
            assert(views.skip(i as int)[0] == stmts@[i as int]@);
            assert(views.skip(i as int).drop_first() =~= views.skip(i + 1));
        }
        let found = match &stmts[i] {
            LetStmt::Let(_, e) => expr_has_query(e),
            LetStmt::Repeat(_, body) => {
                proof {
                    assert(stmts@[i as int]@->Repeat_1 =~= stmt_views(body@));
                }
                stmts_have_query(body)
            },
            LetStmt::For(_, _, _, body) => {
                proof {
                    assert(stmts@[i as int]@->For_3 =~= stmt_views(body@));
                }
                stmts_have_query(body)
            },
            LetStmt::Break(Some(e)) => expr_has_query(e),
            LetStmt::Continue(Some(e)) => expr_has_query(e),
            LetStmt::Until(e) => expr_has_query(e),
            _ => false,
        };
        if found {
            return true;
        }
        i = i + 1;
    }
    false
}

/// Whether a statement list holds a `break`, a `continue` or an `until`, at any depth.
pub open spec fn controlled(s: Seq<LetStmtView>) -> bool
    decreases s,
{
    s.len() > 0 && ((match s[0] {
        LetStmtView::Let(_, _) => false,
        LetStmtView::Repeat(_, body) => controlled(body),
        LetStmtView::For(_, _, _, body) => controlled(body),
        LetStmtView::Break(_) => true,
        LetStmtView::Continue(_) => true,
        LetStmtView::Until(_) => true,
    }) || controlled(s.drop_first()))
}

/// Decides whether a statement list holds a `break`, a `continue` or an `until`. Loops
/// without one lower to plain unrolled bindings; the others get run gates.
pub fn has_control(stmts: &Vec<LetStmt>) -> (r: bool)
    ensures
        r == controlled(stmt_views(stmts@)),
    decreases stmts,
{
    let ghost views = stmt_views(stmts@);
    let mut i: usize = 0;
    proof {
        assert(views.skip(0) =~= views);
    }
    while i < stmts.len()
        invariant
            i <= stmts.len(),
            views == stmt_views(stmts@),
            controlled(views) == controlled(views.skip(i as int)),
        decreases stmts.len() - i,
    {
        proof {
            assert(views.skip(i as int)[0] == stmts@[i as int]@);
            assert(views.skip(i as int).drop_first() =~= views.skip(i + 1));
        }
        let found = match &stmts[i] {
            LetStmt::Let(_, _) => false,
            LetStmt::Repeat(_, body) => {
                proof {
                    assert(stmts@[i as int]@->Repeat_1 =~= stmt_views(body@));
                }
                has_control(body)
            },
            LetStmt::For(_, _, _, body) => {
                proof {
                    assert(stmts@[i as int]@->For_3 =~= stmt_views(body@));
                }
                has_control(body)
            },
            LetStmt::Break(_) => true,
            LetStmt::Continue(_) => true,
            LetStmt::Until(_) => true,
        };
        if found {
            return true;
        }
        i = i + 1;
    }
    false
}

} // verus!
