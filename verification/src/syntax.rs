//! Expressions out of syntax trees.

use crate::eir::{EULER, PI};
use crate::expr::{expr_views, ArithOp, Expr, ExprView, PropKind, Relation};
use crate::fault::{invalid, invalid_at, reject, reject_at, Fault, FaultView};
use crate::grammar::Rule;
use crate::names::same;
use crate::numbers::{number, Numbers, NumbersView};
use crate::peg::{lemma_children, parse_rule, parsed, trees, Node, Tree};
use crate::text::{cut_left, decimal, dotted, parse_decimal, part, qualified, strip_left};
use vstd::prelude::*;
use vstd::string::*;

verus! {

/// The result of building an expression.
pub type Built = Result<ExprView, FaultView>;

/// The view of a result.
pub open spec fn built(r: Result<Expr, Fault>) -> Built {
    match r {
        Ok(e) => Ok(e@),
        Err(f) => Err(f@),
    }
}

/// The levels of binary operators, from the loosest to the tightest.
#[derive(Clone, Copy, Debug, PartialEq, Eq, Structural)]
pub enum Level {
    Or,
    And,
    Compare,
    Add,
    Mul,
}

/// The relation that an operator stands for.
pub open spec fn relation(op: Seq<char>) -> Option<Relation> {
    if op == "<"@ {
        Some(Relation::Lt)
    } else if op == "<="@ {
        Some(Relation::Le)
    } else if op == ">"@ {
        Some(Relation::Gt)
    } else if op == ">="@ {
        Some(Relation::Ge)
    } else if op == "=="@ {
        Some(Relation::Eq)
    } else if op == "!="@ {
        Some(Relation::Ne)
    } else {
        None
    }
}

fn relation_of(op: &str) -> (r: Option<Relation>)
    ensures
        r == relation(op@),
{
    if same(op, "<") {
        Some(Relation::Lt)
    } else if same(op, "<=") {
        Some(Relation::Le)
    } else if same(op, ">") {
        Some(Relation::Gt)
    } else if same(op, ">=") {
        Some(Relation::Ge)
    } else if same(op, "==") {
        Some(Relation::Eq)
    } else if same(op, "!=") {
        Some(Relation::Ne)
    } else {
        None
    }
}

/// The arithmetic that an operator stands for at a level.
pub open spec fn arithmetic(level: Level, op: Seq<char>) -> Option<ArithOp> {
    if level == Level::Add && op == "+"@ {
        Some(ArithOp::Add)
    } else if level == Level::Add && op == "-"@ {
        Some(ArithOp::Sub)
    } else if level == Level::Mul && op == "*"@ {
        Some(ArithOp::Mul)
    } else if level == Level::Mul && op == "/"@ {
        Some(ArithOp::Div)
    } else if level == Level::Mul && op == "%"@ {
        Some(ArithOp::Rem)
    } else {
        None
    }
}

fn arithmetic_of(level: Level, op: &str) -> (r: Option<ArithOp>)
    ensures
        r == arithmetic(level, op@),
{
    if level == Level::Add && same(op, "+") {
        Some(ArithOp::Add)
    } else if level == Level::Add && same(op, "-") {
        Some(ArithOp::Sub)
    } else if level == Level::Mul && same(op, "*") {
        Some(ArithOp::Mul)
    } else if level == Level::Mul && same(op, "/") {
        Some(ArithOp::Div)
    } else if level == Level::Mul && same(op, "%") {
        Some(ArithOp::Rem)
    } else {
        None
    }
}

/// Two operands with the operator between them.
pub open spec fn combined(level: Level, op: Seq<char>, a: ExprView, b: ExprView) -> Built {
    match level {
        Level::Or => Ok(ExprView::Or(Box::new(a), Box::new(b))),
        Level::And => Ok(ExprView::And(Box::new(a), Box::new(b))),
        Level::Compare => match relation(op) {
            Some(r) => Ok(ExprView::Compare(r, Box::new(a), Box::new(b))),
            None => Err(invalid(56)),
        },
        _ => match arithmetic(level, op) {
            Some(o) => Ok(ExprView::Arith(o, Box::new(a), Box::new(b))),
            None => Ok(a),
        },
    }
}

fn combine(level: Level, op: &str, a: Expr, b: Expr) -> (r: Result<Expr, Fault>)
    ensures
        built(r) == combined(level, op@, a@, b@),
{
    match level {
        Level::Or => Ok(Expr::Or(Box::new(a), Box::new(b))),
        Level::And => Ok(Expr::And(Box::new(a), Box::new(b))),
        Level::Compare => match relation_of(op) {
            Some(r) => Ok(Expr::Compare(r, Box::new(a), Box::new(b))),
            None => Err(reject(56)),
        },
        _ => match arithmetic_of(level, op) {
            Some(o) => Ok(Expr::Arith(o, Box::new(a), Box::new(b))),
            None => Ok(a),
        },
    }
}

/// The expression of an `expr` node: that of its one child.
pub open spec fn expr_of(n: NumbersView, t: Tree) -> Built
    decreases t, 9int, 0nat,
{
    if t.children.len() == 0 {
        Err(invalid(56))
    } else {
        level_of(n, Level::Or, t.children[0])
    }
}

/// The expression of an operand at a level: a chain of the next tighter level, and a
/// factor behind the tightest.
pub open spec fn operand_of(n: NumbersView, level: Level, t: Tree) -> Built
    decreases t, 8int, 0nat,
{
    match level {
        Level::Or => level_of(n, Level::And, t),
        Level::And => level_of(n, Level::Compare, t),
        Level::Compare => level_of(n, Level::Add, t),
        Level::Add => level_of(n, Level::Mul, t),
        Level::Mul => factor_of(n, t),
    }
}

/// The expression of a chain of operands, associated to the left.
pub open spec fn level_of(n: NumbersView, level: Level, t: Tree) -> Built
    decreases t, 7int, 0nat,
{
    let kids = t.children;
    if kids.len() % 2 == 1 {
        chain_of(n, level, kids, kids.len())
    } else if kids.len() == 0 {
        Err(invalid(56))
    } else {
        match chain_of(n, level, kids, (kids.len() - 1) as nat) {
            Ok(_) => Err(invalid(56)),
            Err(f) => Err(f),
        }
    }
}

/// The expression of the first `k` nodes of a chain, operands at the even places
/// and operators between them.
pub open spec fn chain_of(n: NumbersView, level: Level, kids: Seq<Tree>, k: nat) -> Built
    decreases kids, 6int, k,
{
    if k == 0 || k > kids.len() {
        Err(invalid(56))
    } else if k <= 2 {
        operand_of(n, level, kids[0])
    } else {
        match chain_of(n, level, kids, (k - 2) as nat) {
            Err(f) => Err(f),
            Ok(a) => match operand_of(n, level, kids[k - 1]) {
                Err(f) => Err(f),
                Ok(b) => combined(level, kids[k - 2].text, a, b),
            },
        }
    }
}

/// A slot index behind the letter `s`.
pub open spec fn slot_index(text: Seq<char>) -> Option<usize> {
    decimal(cut_left(text, 's'))
}

/// The expression of a `factor` node.
pub open spec fn factor_of(n: NumbersView, t: Tree) -> Built
    decreases t, 5int, 0nat,
{
    if t.children.len() == 0 {
        Err(invalid(56))
    } else {
        let inner = t.children[0];
        match inner.rule {
            Rule::Unary => if inner.children.len() == 2 && inner.children[0].rule == Rule::NotOp {
                match factor_of(n, inner.children[1]) {
                    Ok(e) => Ok(ExprView::Not(Box::new(e))),
                    Err(f) => Err(f),
                }
            } else if inner.children.len() == 0 {
                Err(invalid(56))
            } else {
                match factor_of(n, inner.children[0]) {
                    Ok(e) => Ok(ExprView::Neg(Box::new(e))),
                    Err(f) => Err(f),
                }
            },
            Rule::Number => match number(n, inner.text) {
                Some(v) => Ok(ExprView::Const(v)),
                None => Err(invalid(57)),
            },
            Rule::Slot => match slot_index(inner.text) {
                Some(i) => Ok(ExprView::Slot(i)),
                None => Err(invalid(58)),
            },
            Rule::SlotDyn => if inner.children.len() == 0 {
                Err(invalid(58))
            } else {
                match expr_of(n, inner.children[0]) {
                    Ok(e) => Ok(ExprView::SlotDyn(Box::new(e))),
                    Err(f) => Err(f),
                }
            },
            Rule::EntityRef => ref_of(inner),
            Rule::Time => Ok(ExprView::Time),
            Rule::Constant => Ok(
                ExprView::Const(
                    if inner.text == "pi"@ {
                        PI
                    } else {
                        EULER
                    },
                ),
            ),
            Rule::StateName => Ok(ExprView::Name(inner.text)),
            Rule::Namespaced => Ok(ExprView::Name(inner.text)),
            Rule::Expr => expr_of(n, inner),
            Rule::Call => call_of(n, inner),
            _ => Err(invalid(56)),
        }
    }
}

/// The arguments of a call: the children from the second to the `k`-th.
pub open spec fn args_of(n: NumbersView, kids: Seq<Tree>, k: nat) -> Result<
    Seq<ExprView>,
    FaultView,
>
    decreases kids, 6int, k,
{
    if k <= 1 || k > kids.len() {
        Ok(Seq::empty())
    } else {
        match args_of(n, kids, (k - 1) as nat) {
            Err(f) => Err(f),
            Ok(args) => match expr_of(n, kids[k - 1]) {
                Err(f) => Err(f),
                Ok(e) => Ok(args.push(e)),
            },
        }
    }
}

/// The expression of a call.
pub open spec fn call_of(n: NumbersView, t: Tree) -> Built
    decreases t, 7int, 0nat,
{
    if t.children.len() == 0 {
        Err(invalid(56))
    } else {
        match args_of(n, t.children, t.children.len()) {
            Err(f) => Err(f),
            Ok(args) => if arity_fits(t.children[0].text, args) {
                Ok(ExprView::Call(t.children[0].text, args))
            } else {
                Err(invalid(59))
            },
        }
    }
}

/// Built-ins without arguments.
pub open spec fn takes_none(name: Seq<char>) -> bool {
    name == "random"@ || name == "active"@ || name == "nearest_dist"@ || name == "nearest_dx"@
        || name == "nearest_dy"@ || name == "nearest_dz"@ || name == "noise"@
}

/// Built-ins with one argument.
pub open spec fn takes_one(name: Seq<char>) -> bool {
    name == "print"@ || name == "neighbor_count"@ || name == "at"@ || name == "last_event"@ || name
        == "abs"@ || name == "floor"@ || name == "ceil"@ || name == "round"@ || name == "sign"@
        || name == "log10"@ || name == "log2"@ || name == "sinh"@ || name == "cosh"@ || name
        == "tanh"@ || name == "asin"@ || name == "acos"@ || name == "atan"@
}

/// Built-ins with two arguments.
pub open spec fn takes_two(name: Seq<char>) -> bool {
    name == "min"@ || name == "max"@ || name == "emit"@ || name == "neighbor_mean"@ || name
        == "atan2"@ || name == "hypot"@
}

/// Whether a call has as many arguments as its built-in takes. The arguments of
/// `sin`, `cos`, `exp`, `ln`, `sqrt`, `pow` and of declared functions are not
/// counted. A grid cell is named by a literal field.
pub open spec fn arity_fits(name: Seq<char>, args: Seq<ExprView>) -> bool {
    let len = args.len();
    let field = len > 0 && args[0] is Name;
    if takes_none(name) {
        len == 0
    } else if takes_one(name) {
        len == 1
    } else if takes_two(name) {
        len == 2
    } else if name == "if"@ || name == "vlen"@ {
        len == 3
    } else if name == "schedule"@ {
        len == 4
    } else if name == "periodic"@ {
        len == 1 || len == 2
    } else if name == "vdot"@ || name == "vdist"@ {
        len == 6
    } else if name == "fget"@ || name == "flap"@ {
        (len == 3 || len == 4) && field
    } else if name == "fset"@ {
        (len == 4 || len == 5) && field
    } else {
        true
    }
}

/// Decides [`arity_fits`].
fn check_arity(name: &str, args: &Vec<Expr>) -> (r: bool)
    ensures
        r == arity_fits(name@, expr_views(args@)),
{
    let len: usize = args.len();
    let field: bool = len > 0 && (match &args[0] {
        Expr::Name(_) => true,
        _ => false,
    });
    proof {
        if len > 0 {
            assert(expr_views(args@)[0] == args@[0]@);
        }
    }
    let none: bool = same(name, "random") || same(name, "active") || same(name, "nearest_dist")
        || same(name, "nearest_dx") || same(name, "nearest_dy") || same(name, "nearest_dz") || same(
        name,
        "noise",
    );
    if none {
        return len == 0;
    }
    let one: bool = same(name, "print") || same(name, "neighbor_count") || same(name, "at") || same(
        name,
        "last_event",
    ) || same(name, "abs") || same(name, "floor") || same(name, "ceil") || same(name, "round")
        || same(name, "sign") || same(name, "log10") || same(name, "log2") || same(name, "sinh")
        || same(name, "cosh") || same(name, "tanh") || same(name, "asin") || same(name, "acos")
        || same(name, "atan");
    if one {
        return len == 1;
    }
    let two: bool = same(name, "min") || same(name, "max") || same(name, "emit") || same(
        name,
        "neighbor_mean",
    ) || same(name, "atan2") || same(name, "hypot");
    if two {
        return len == 2;
    }
    if same(name, "if") || same(name, "vlen") {
        len == 3
    } else if same(name, "schedule") {
        len == 4
    } else if same(name, "periodic") {
        len == 1 || len == 2
    } else if same(name, "vdot") || same(name, "vdist") {
        len == 6
    } else if same(name, "fget") || same(name, "flap") {
        (len == 3 || len == 4) && field
    } else if same(name, "fset") {
        (len == 4 || len == 5) && field
    } else {
        true
    }
}

/// The own name for `self`, and else a name behind that of the entity.
pub open spec fn owned_name(entity: Seq<char>, own: Seq<char>, other: Seq<char>) -> Seq<char> {
    if entity == "self"@ {
        own
    } else {
        qualified(entity, other)
    }
}

fn own_name(entity: &str, own: &str, other: &str) -> (r: String)
    ensures
        r@ == owned_name(entity@, own@, other@),
{
    if same(entity, "self") {
        own.to_owned()
    } else {
        dotted(entity, other)
    }
}

/// The property that a two-part path names.
pub open spec fn property(first: Seq<char>, second: Seq<char>) -> Option<PropKind> {
    if first == "position"@ && second == "x"@ {
        Some(PropKind::PositionX)
    } else if first == "position"@ && second == "y"@ {
        Some(PropKind::PositionY)
    } else if first == "position"@ && second == "z"@ {
        Some(PropKind::PositionZ)
    } else if first == "velocity"@ && second == "x"@ {
        Some(PropKind::VelocityX)
    } else if first == "velocity"@ && second == "y"@ {
        Some(PropKind::VelocityY)
    } else if first == "velocity"@ && second == "z"@ {
        Some(PropKind::VelocityZ)
    } else {
        None
    }
}

fn property_of(first: &str, second: &str) -> (r: Option<PropKind>)
    ensures
        r == property(first@, second@),
{
    if same(first, "position") && same(second, "x") {
        Some(PropKind::PositionX)
    } else if same(first, "position") && same(second, "y") {
        Some(PropKind::PositionY)
    } else if same(first, "position") && same(second, "z") {
        Some(PropKind::PositionZ)
    } else if same(first, "velocity") && same(second, "x") {
        Some(PropKind::VelocityX)
    } else if same(first, "velocity") && same(second, "y") {
        Some(PropKind::VelocityY)
    } else if same(first, "velocity") && same(second, "z") {
        Some(PropKind::VelocityZ)
    } else {
        None
    }
}

/// What a path behind the name of an entity stands for: a named slot, a component of
/// a vector of slots, a numbered slot, or a physical property.
pub open spec fn path_of(name: Seq<char>, path: Seq<Tree>) -> Built {
    if path.len() == 0 {
        Ok(ExprView::Name(owned_name(name, Seq::empty(), Seq::empty())))
    } else if path.len() == 1 {
        let first = path[0].text;
        if first == "mass"@ {
            Ok(ExprView::PropRef(name, PropKind::Mass))
        } else if first == "is_dynamic"@ {
            Ok(ExprView::PropRef(name, PropKind::IsDynamic))
        } else {
            Ok(ExprView::Name(owned_name(name, first, first)))
        }
    } else if path.len() == 3 && path[0].text == "state"@ {
        let component = qualified(path[1].text, path[2].text);
        Ok(ExprView::Name(owned_name(name, component, qualified("state"@, component))))
    } else {
        let first = path[0].text;
        let second = path[1].text;
        match property(first, second) {
            Some(kind) => Ok(ExprView::PropRef(name, kind)),
            None => if first != "state"@ {
                Err(invalid(58))
            } else if second.len() > 0 && second[0] == 's' {
                match decimal(second.drop_first()) {
                    Some(i) => Ok(ExprView::PropRef(name, PropKind::State(i))),
                    None => Err(invalid(58)),
                }
            } else {
                Ok(ExprView::Name(owned_name(name, second, qualified("state"@, second))))
            },
        }
    }
}

/// The expression of a reference `@name.path`.
pub open spec fn ref_of(t: Tree) -> Built {
    if t.children.len() < 2 {
        Err(invalid(58))
    } else {
        let name = t.children[0].text;
        let path = t.children[1];
        match path.rule {
            Rule::Slot => match slot_index(path.text) {
                Some(i) => Ok(ExprView::Ref(name, i)),
                None => Err(invalid(58)),
            },
            Rule::PropPath => path_of(name, path.children),
            _ => Err(invalid(58)),
        }
    }
}

fn build_path(name: &str, path: &Vec<Node>) -> (r: Result<Expr, Fault>)
    ensures
        built(r) == path_of(name@, trees(path@)),
{
    let ghost segs = trees(path@);
    if path.len() == 0 {
        proof {
            reveal_strlit("");
            assert(""@ =~= Seq::<char>::empty());
        }
        return Ok(Expr::Name(own_name(name, "", "")));
    }
    let first: &str = path[0].text.as_str();
    proof {
        assert(segs[0].text == first@);
    }
    if path.len() == 1 {
        return if same(first, "mass") {
            Ok(Expr::PropRef(name.to_owned(), PropKind::Mass))
        } else if same(first, "is_dynamic") {
            Ok(Expr::PropRef(name.to_owned(), PropKind::IsDynamic))
        } else {
            Ok(Expr::Name(own_name(name, first, first)))
        };
    }
    let second: &str = path[1].text.as_str();
    proof {
        assert(segs[1].text == second@);
    }
    if path.len() == 3 && same(first, "state") {
        let third: &str = path[2].text.as_str();
        proof {
            assert(segs[2].text == third@);
        }
        let component: String = dotted(second, third);
        let other: String = dotted("state", &component);
        return Ok(Expr::Name(own_name(name, &component, &other)));
    }
    match property_of(first, second) {
        Some(kind) => Ok(Expr::PropRef(name.to_owned(), kind)),
        None => {
            if !same(first, "state") {
                return Err(reject(58));
            }
            let len: usize = second.unicode_len();
            if len > 0 && second.get_char(0) == 's' {
                let digits: String = part(second, 1, len);
                proof {
                    assert(digits@ =~= second@.drop_first());
                }
                match parse_decimal(&digits) {
                    Some(i) => Ok(Expr::PropRef(name.to_owned(), PropKind::State(i))),
                    None => Err(reject(58)),
                }
            } else {
                let other: String = dotted("state", second);
                Ok(Expr::Name(own_name(name, second, &other)))
            }
        },
    }
}

fn build_ref(node: &Node) -> (r: Result<Expr, Fault>)
    ensures
        built(r) == ref_of(node@),
{
    proof {
        lemma_children(*node);
    }
    if node.children.len() < 2 {
        return Err(reject(58));
    }
    let path: &Node = &node.children[1];
    proof {
        assert(node@.children[0] == node.children@[0]@);
        assert(node@.children[1] == node.children@[1]@);
        lemma_children(*path);
    }
    match path.rule {
        Rule::Slot => match parse_decimal(&strip_left(&path.text, 's')) {
            Some(i) => Ok(Expr::Ref(node.children[0].text.clone(), i)),
            None => Err(reject(58)),
        },
        Rule::PropPath => build_path(&node.children[0].text, &path.children),
        _ => Err(reject(58)),
    }
}

/// Builds the expression of an `expr` node.
pub fn build_expr(numbers: &Numbers, node: &Node) -> (r: Result<Expr, Fault>)
    ensures
        built(r) == expr_of(numbers@, node@),
    decreases node, 9int, 0nat,
{
    proof {
        lemma_children(*node);
    }
    if node.children.len() == 0 {
        return Err(reject(56));
    }
    proof {
        assert(node@.children[0] == node.children@[0]@);
        assert(decreases_to!(*node => node.children@[0]));
    }
    build_level(numbers, Level::Or, &node.children[0])
}

fn build_operand(numbers: &Numbers, level: Level, node: &Node) -> (r: Result<Expr, Fault>)
    ensures
        built(r) == operand_of(numbers@, level, node@),
    decreases node, 8int, 0nat,
{
    match level {
        Level::Or => build_level(numbers, Level::And, node),
        Level::And => build_level(numbers, Level::Compare, node),
        Level::Compare => build_level(numbers, Level::Add, node),
        Level::Add => build_level(numbers, Level::Mul, node),
        Level::Mul => build_factor(numbers, node),
    }
}

fn build_level(numbers: &Numbers, level: Level, node: &Node) -> (r: Result<Expr, Fault>)
    ensures
        built(r) == level_of(numbers@, level, node@),
    decreases node, 7int, 0nat,
{
    let kids: &Vec<Node> = &node.children;
    proof {
        lemma_children(*node);
    }
    if kids.len() == 0 {
        return Err(reject(56));
    }
    proof {
        assert(node@.children[0] == kids@[0]@);
        assert(decreases_to!(*node => node.children@[0]));
    }
    let mut acc: Expr = match build_operand(numbers, level, &kids[0]) {
        Ok(e) => e,
        Err(f) => {
            proof {
                lemma_chain_fails(numbers@, level, node@.children, 1, f@);
            }
            return Err(f);
        },
    };
    let mut k: usize = 1;
    while kids.len() - k >= 2
        invariant
            1 <= k <= kids.len(),
            k % 2 == 1,
            *kids == node.children,
            node@.children == trees(kids@),
            chain_of(numbers@, level, node@.children, k as nat) == Ok::<ExprView, FaultView>(acc@),
        decreases kids.len() - k,
    {
        proof {
            assert(node@.children[k as int] == kids@[k as int]@);
            assert(node@.children[k + 1] == kids@[k + 1]@);
            assert(decreases_to!(*node => node.children@[k + 1]));
        }
        let rhs: Expr = match build_operand(numbers, level, &kids[k + 1]) {
            Ok(e) => e,
            Err(f) => {
                proof {
                    lemma_chain_fails(numbers@, level, node@.children, (k + 2) as nat, f@);
                }
                return Err(f);
            },
        };
        match combine(level, &kids[k].text, acc, rhs) {
            Ok(e) => {
                acc = e;
            },
            Err(f) => {
                proof {
                    lemma_chain_fails(numbers@, level, node@.children, (k + 2) as nat, f@);
                }
                return Err(f);
            },
        }
        k = k + 2;
    }
    if k < kids.len() {
        return Err(reject(56));
    }
    Ok(acc)
}

/// A chain that fails at a place fails with the same fault as a whole.
proof fn lemma_chain_fails(n: NumbersView, level: Level, kids: Seq<Tree>, k: nat, f: FaultView)
    requires
        k % 2 == 1,
        k <= kids.len(),
        chain_of(n, level, kids, k) == Err::<ExprView, FaultView>(f),
    ensures
        kids.len() % 2 == 1 ==> chain_of(n, level, kids, kids.len()) == Err::<ExprView, FaultView>(
            f,
        ),
        kids.len() % 2 == 0 ==> chain_of(n, level, kids, (kids.len() - 1) as nat) == Err::<
            ExprView,
            FaultView,
        >(f),
    decreases kids.len() - k,
{
    if k + 2 <= kids.len() {
        lemma_chain_fails(n, level, kids, k + 2, f);
    }
}

fn build_factor(numbers: &Numbers, node: &Node) -> (r: Result<Expr, Fault>)
    ensures
        built(r) == factor_of(numbers@, node@),
    decreases node, 5int, 0nat,
{
    proof {
        lemma_children(*node);
    }
    if node.children.len() == 0 {
        return Err(reject(56));
    }
    let inner: &Node = &node.children[0];
    proof {
        assert(node@.children[0] == inner@);
        lemma_children(*inner);
        assert(decreases_to!(*node => node.children@[0]));
    }
    match inner.rule {
        Rule::Unary => build_unary(numbers, inner),
        Rule::Number => match numbers.get(&inner.text) {
            Some(v) => Ok(Expr::Const(v)),
            None => Err(reject(57)),
        },
        Rule::Slot => match parse_decimal(&strip_left(&inner.text, 's')) {
            Some(i) => Ok(Expr::Slot(i)),
            None => Err(reject(58)),
        },
        Rule::SlotDyn => {
            if inner.children.len() == 0 {
                return Err(reject(58));
            }
            proof {
                assert(inner@.children[0] == inner.children@[0]@);
                assert(decreases_to!(*inner => inner.children@[0]));
            }
            match build_expr(numbers, &inner.children[0]) {
                Ok(e) => Ok(Expr::SlotDyn(Box::new(e))),
                Err(f) => Err(f),
            }
        },
        Rule::EntityRef => build_ref(inner),
        Rule::Time => Ok(Expr::Time),
        Rule::Constant => {
            if same(&inner.text, "pi") {
                Ok(Expr::Const(PI))
            } else {
                Ok(Expr::Const(EULER))
            }
        },
        Rule::StateName => Ok(Expr::Name(inner.text.clone())),
        Rule::Namespaced => Ok(Expr::Name(inner.text.clone())),
        Rule::Expr => build_expr(numbers, inner),
        Rule::Call => build_call(numbers, inner),
        _ => Err(reject(56)),
    }
}

fn build_unary(numbers: &Numbers, inner: &Node) -> (r: Result<Expr, Fault>)
    ensures
        built(r) == (if inner@.children.len() == 2 && inner@.children[0].rule == Rule::NotOp {
            match factor_of(numbers@, inner@.children[1]) {
                Ok(e) => Ok(ExprView::Not(Box::new(e))),
                Err(f) => Err(f),
            }
        } else if inner@.children.len() == 0 {
            Err(invalid(56))
        } else {
            match factor_of(numbers@, inner@.children[0]) {
                Ok(e) => Ok(ExprView::Neg(Box::new(e))),
                Err(f) => Err(f),
            }
        }),
    decreases inner, 5int, 1nat,
{
    proof {
        lemma_children(*inner);
    }
    if inner.children.len() == 0 {
        return Err(reject(56));
    }
    proof {
        assert(inner@.children[0] == inner.children@[0]@);
        assert(decreases_to!(*inner => inner.children@[0]));
    }
    if inner.children.len() == 2 && inner.children[0].rule == Rule::NotOp {
        proof {
            assert(inner@.children[1] == inner.children@[1]@);
            assert(decreases_to!(*inner => inner.children@[1]));
        }
        match build_factor(numbers, &inner.children[1]) {
            Ok(e) => Ok(Expr::Not(Box::new(e))),
            Err(f) => Err(f),
        }
    } else {
        match build_factor(numbers, &inner.children[0]) {
            Ok(e) => Ok(Expr::Neg(Box::new(e))),
            Err(f) => Err(f),
        }
    }
}

/// A list of arguments that fails at a place fails with the same fault as a whole.
proof fn lemma_args_fail(n: NumbersView, kids: Seq<Tree>, k: nat, f: FaultView)
    requires
        1 <= k <= kids.len(),
        args_of(n, kids, k) == Err::<Seq<ExprView>, FaultView>(f),
    ensures
        args_of(n, kids, kids.len()) == Err::<Seq<ExprView>, FaultView>(f),
    decreases kids.len() - k,
{
    if k < kids.len() {
        lemma_args_fail(n, kids, k + 1, f);
    }
}

fn build_call(numbers: &Numbers, node: &Node) -> (r: Result<Expr, Fault>)
    ensures
        built(r) == call_of(numbers@, node@),
    decreases node, 7int, 0nat,
{
    let kids: &Vec<Node> = &node.children;
    proof {
        lemma_children(*node);
    }
    if kids.len() == 0 {
        return Err(reject(56));
    }
    proof {
        assert(node@.children[0] == kids@[0]@);
    }
    let mut args: Vec<Expr> = Vec::new();
    let mut k: usize = 1;
    proof {
        assert(expr_views(args@) =~= Seq::<ExprView>::empty());
    }
    while k < kids.len()
        invariant
            1 <= k <= kids.len(),
            *kids == node.children,
            node@.children == trees(kids@),
            args_of(numbers@, node@.children, k as nat) == Ok::<Seq<ExprView>, FaultView>(
                expr_views(args@),
            ),
        decreases kids.len() - k,
    {
        let ghost before = expr_views(args@);
        proof {
            assert(node@.children[k as int] == kids@[k as int]@);
            assert(decreases_to!(*node => node.children@[k as int]));
        }
        match build_expr(numbers, &kids[k]) {
            Ok(e) => {
                args.push(e);
                proof {
                    assert(expr_views(args@) =~= before.push(e@));
                }
            },
            Err(f) => {
                proof {
                    lemma_args_fail(numbers@, node@.children, (k + 1) as nat, f@);
                }
                return Err(f);
            },
        }
        k = k + 1;
    }
    if check_arity(&kids[0].text, &args) {
        let e: Expr = Expr::Call(kids[0].text.clone(), args);
        proof {
            assert(e@->Call_1 =~= expr_views(args@));
        }
        Ok(e)
    } else {
        Err(reject(59))
    }
}

/// The expression that a text starts with.
pub open spec fn expr_text(n: NumbersView, text: Seq<char>) -> Built {
    match parsed(Rule::Expr, text) {
        None => Err(invalid_at(56, 0, "invalid expression"@)),
        Some(nodes) => if nodes.len() == 0 {
            Err(invalid(56))
        } else {
            expr_of(n, nodes[0])
        },
    }
}

/// Parses a scalar expression. What follows it is left unread.
pub fn parse_expr_str(numbers: &Numbers, text: &str) -> (r: Result<Expr, Fault>)
    ensures
        built(r) == expr_text(numbers@, text@),
{
    match parse_rule(Rule::Expr, text) {
        None => Err(reject_at(56, 0, "invalid expression".to_owned())),
        Some(nodes) => {
            if nodes.len() == 0 {
                return Err(reject(56));
            }
            proof {
                assert(trees(nodes@)[0] == nodes@[0]@);
            }
            build_expr(numbers, &nodes[0])
        },
    }
}

} // verus!
