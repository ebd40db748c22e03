//! Dimensional analysis of rules.
//!
//! It is gradual: a value without a declared unit fits everywhere, so only what was
//! annotated is checked.

use crate::decl::{
    entity_views, slot_names, system_decl_views, vector_name, vector_of, EntityDecl, EntityView,
    ParsedProgram, ProgramView, SystemDecl, SystemDeclView,
};
use crate::diagnostics::{noted, DiagView, Diagnostics};
use crate::expr::{
    expr_views, stmt_views, ArithOp, Expr, ExprView, LetStmt, LetStmtView, Relation,
};
use crate::fault::{invalid, invalid_at, reject, reject_at, text_view, Fault, FaultView};
use crate::names::{assoc_get, assoc_insert, same, NameMap, ViewMap};
use crate::numbers::{Numbers, NumbersView};
use crate::stmts::{fault_view, lets_of, to_let_stmts};
use crate::syntax::{expr_text, parse_expr_str};
use crate::systems::{dynamic_key, is_dynamic_key};
use crate::text::{joined, numeric_slot, slot_number};
use crate::units::{
    dim_text, exponents, holdable, law_exponents_make_the_dimension, law_product_adds_exponents,
    law_ratio_undoes_product, law_root_halves_exponents, plain, product, ratio, root, time, unified,
    unify, Dim,
};
use vstd::prelude::*;
use vstd::string::*;

verus! {

/// What names and slots have for dimensions.
pub struct DimEnv<'a> {
    pub slot_dims: &'a Vec<Option<Dim>>,
    pub name_to_slot: &'a NameMap<usize>,
    pub params: &'a ViewMap<Dim>,
    pub locals: NameMap<Option<Dim>>,
}

/// The mathematical value of a [`DimEnv`].
pub struct DimEnvView {
    pub slot_dims: Seq<Option<Dim>>,
    pub name_to_slot: Seq<(Seq<char>, usize)>,
    pub params: Seq<(Seq<char>, Dim)>,
    pub locals: Seq<(Seq<char>, Option<Dim>)>,
}

impl<'a> View for DimEnv<'a> {
    type V = DimEnvView;

    open spec fn view(&self) -> DimEnvView {
        DimEnvView {
            slot_dims: self.slot_dims@,
            name_to_slot: self.name_to_slot@,
            params: self.params@,
            locals: self.locals@,
        }
    }
}

/// The dimension of a slot.
pub open spec fn slot_dim(dims: Seq<Option<Dim>>, i: usize) -> Option<Dim> {
    if i < dims.len() {
        dims[i as int]
    } else {
        None
    }
}

fn dim_of_slot(dims: &Vec<Option<Dim>>, i: usize) -> (r: Option<Dim>)
    ensures
        r == slot_dim(dims@, i),
{
    if i < dims.len() {
        dims[i]
    } else {
        None
    }
}

/// The dimension of a name: a local, then a named slot, then a parameter.
pub open spec fn name_dim(env: DimEnvView, name: Seq<char>) -> Option<Dim> {
    match assoc_get(env.locals, name) {
        Some(d) => d,
        None => match assoc_get(env.name_to_slot, name) {
            Some(i) => slot_dim(env.slot_dims, i),
            None => assoc_get(env.params, name),
        },
    }
}

/// The dimension of a product of values, where both are known.
pub open spec fn product_of(a: Option<Dim>, b: Option<Dim>) -> Option<Dim> {
    match (a, b) {
        (Some(x), Some(y)) => Some(product(x, y)),
        _ => None,
    }
}

/// The dimension of a quotient of values, where both are known.
pub open spec fn ratio_of(a: Option<Dim>, b: Option<Dim>) -> Option<Dim> {
    match (a, b) {
        (Some(x), Some(y)) => Some(ratio(x, y)),
        _ => None,
    }
}

/// The functions of plain numbers.
pub open spec fn wants_plain(name: Seq<char>) -> bool {
    name == "sin"@ || name == "cos"@ || name == "exp"@ || name == "ln"@ || name == "log10"@ || name
        == "log2"@ || name == "sinh"@ || name == "cosh"@ || name == "tanh"@ || name == "asin"@
        || name == "acos"@ || name == "atan"@
}

fn is_plain_function(name: &str) -> (r: bool)
    ensures
        r == wants_plain(name@),
{
    same(name, "sin") || same(name, "cos") || same(name, "exp") || same(name, "ln") || same(
        name,
        "log10",
    ) || same(name, "log2") || same(name, "sinh") || same(name, "cosh") || same(name, "tanh")
        || same(name, "asin") || same(name, "acos") || same(name, "atan")
}

/// The functions whose result has the dimension of their argument.
pub open spec fn keeps_dim(name: Seq<char>) -> bool {
    name == "abs"@ || name == "floor"@ || name == "ceil"@ || name == "round"@ || name == "sign"@
        || name == "print"@
}

fn is_keeping_function(name: &str) -> (r: bool)
    ensures
        r == keeps_dim(name@),
{
    same(name, "abs") || same(name, "floor") || same(name, "ceil") || same(name, "round") || same(
        name,
        "sign",
    ) || same(name, "print")
}

/// Nothing is known of a value, if another is a plain number.
pub open spec fn plain_then_unknown(d: Option<Option<Dim>>) -> Option<Option<Dim>> {
    match d {
        None => None,
        Some(d) => if unified(d, Some(plain())) is None {
            None
        } else {
            Some(None)
        },
    }
}

/// The common dimension of two values that each may be inconsistent.
pub open spec fn joint(a: Option<Option<Dim>>, b: Option<Option<Dim>>) -> Option<Option<Dim>> {
    match (a, b) {
        (Some(x), Some(y)) => unified(x, y),
        _ => None,
    }
}

/// The dimension of an expression, where it is consistent.
pub open spec fn dim_of(env: DimEnvView, e: ExprView) -> Option<Option<Dim>>
    decreases e, 1nat,
{
    match e {
        ExprView::Const(_) => Some(None),
        ExprView::Time => Some(Some(time())),
        ExprView::Slot(i) => Some(slot_dim(env.slot_dims, i)),
        ExprView::SlotDyn(_) => Some(None),
        ExprView::Name(name) => Some(name_dim(env, name)),
        ExprView::Ref(_, _) => Some(None),
        ExprView::PropRef(_, _) => Some(None),
        ExprView::Neg(a) => dim_of(env, *a),
        ExprView::Arith(op, a, b) => match (dim_of(env, *a), dim_of(env, *b)) {
            (Some(x), Some(y)) => match op {
                ArithOp::Mul => Some(product_of(x, y)),
                ArithOp::Div => Some(ratio_of(x, y)),
                _ => unified(x, y),
            },
            _ => None,
        },
        ExprView::Compare(_, a, b) => match joint(dim_of(env, *a), dim_of(env, *b)) {
            None => None,
            Some(_) => Some(None),
        },
        ExprView::And(a, b) => match plain_then_unknown(dim_of(env, *a)) {
            None => None,
            Some(_) => plain_then_unknown(dim_of(env, *b)),
        },
        ExprView::Or(a, b) => match plain_then_unknown(dim_of(env, *a)) {
            None => None,
            Some(_) => plain_then_unknown(dim_of(env, *b)),
        },
        ExprView::Not(a) => plain_then_unknown(dim_of(env, *a)),
        ExprView::Call(name, args) => call_dim(env, name, args),
    }
}

/// The dimension of an argument; one that is not there has none.
pub open spec fn arg_dim(env: DimEnvView, args: Seq<ExprView>, i: int) -> Option<Option<Dim>>
    decreases args, 0nat,
{
    if 0 <= i < args.len() {
        dim_of(env, args[i])
    } else {
        Some(None)
    }
}

/// The dimension of a call.
pub open spec fn call_dim(env: DimEnvView, name: Seq<char>, args: Seq<ExprView>) -> Option<
    Option<Dim>,
>
    decreases args, 1nat,
{
    if wants_plain(name) {
        plain_then_unknown(arg_dim(env, args, 0))
    } else if keeps_dim(name) {
        arg_dim(env, args, 0)
    } else if name == "sqrt"@ {
        match arg_dim(env, args, 0) {
            None => None,
            Some(None) => Some(None),
            Some(Some(d)) => match root(d) {
                None => None,
                Some(r) => Some(Some(r)),
            },
        }
    } else if name == "pow"@ {
        plain_then_unknown(arg_dim(env, args, 1))
    } else if name == "hypot"@ || name == "min"@ || name == "max"@ {
        joint(arg_dim(env, args, 0), arg_dim(env, args, 1))
    } else if name == "if"@ {
        match plain_then_unknown(arg_dim(env, args, 0)) {
            None => None,
            Some(_) => joint(arg_dim(env, args, 1), arg_dim(env, args, 2)),
        }
    } else {
        Some(None)
    }
}

fn plain_check(d: Option<Option<Dim>>) -> (r: Option<Option<Dim>>)
    ensures
        r == plain_then_unknown(d),
{
    match d {
        None => None,
        Some(d) => match unify(d, Some(Dim::dimensionless())) {
            None => None,
            Some(_) => Some(None),
        },
    }
}

fn join(a: Option<Option<Dim>>, b: Option<Option<Dim>>) -> (r: Option<Option<Dim>>)
    ensures
        r == joint(a, b),
{
    match (a, b) {
        (Some(x), Some(y)) => unify(x, y),
        _ => None,
    }
}

impl<'a> DimEnv<'a> {
    fn of_name(&self, name: &str) -> (r: Option<Dim>)
        ensures
            r == name_dim(self@, name@),
    {
        if let Some(d) = self.locals.get(name) {
            return *d;
        }
        if let Some(i) = self.name_to_slot.get(name) {
            return dim_of_slot(self.slot_dims, *i);
        }
        match self.params.get(name) {
            Some(d) => Some(*d),
            None => None,
        }
    }

    fn of_arg(&self, args: &Vec<Expr>, i: usize) -> (r: Option<Option<Dim>>)
        ensures
            r == arg_dim(self@, expr_views(args@), i as int),
        decreases args, 0nat,
    {
        if i < args.len() {
            proof {
                assert(expr_views(args@)[i as int] == args@[i as int]@);
                assert(decreases_to!(*args => args@[i as int]));
            }
            self.of_expr(&args[i])
        } else {
            Some(None)
        }
    }

    fn of_call(&self, name: &str, args: &Vec<Expr>) -> (r: Option<Option<Dim>>)
        ensures
            r == call_dim(self@, name@, expr_views(args@)),
        decreases args, 1nat,
    {
        if is_plain_function(name) {
            plain_check(self.of_arg(args, 0))
        } else if is_keeping_function(name) {
            self.of_arg(args, 0)
        } else if same(name, "sqrt") {
            match self.of_arg(args, 0) {
                None => None,
                Some(None) => Some(None),
                Some(Some(d)) => match d.sqrt() {
                    None => None,
                    Some(r) => Some(Some(r)),
                },
            }
        } else if same(name, "pow") {
            plain_check(self.of_arg(args, 1))
        } else if same(name, "hypot") || same(name, "min") || same(name, "max") {
            join(self.of_arg(args, 0), self.of_arg(args, 1))
        } else if same(name, "if") {
            match plain_check(self.of_arg(args, 0)) {
                None => None,
                Some(_) => join(self.of_arg(args, 1), self.of_arg(args, 2)),
            }
        } else {
            Some(None)
        }
    }

    /// The dimension of an expression; nothing where it is inconsistent.
    pub fn of_expr(&self, e: &Expr) -> (r: Option<Option<Dim>>)
        ensures
            r == dim_of(self@, e@),
        decreases e, 1nat,
    {
        match e {
            Expr::Const(_) => Some(None),
            Expr::Time => Some(Some(Dim::seconds())),
            Expr::Slot(i) => Some(dim_of_slot(self.slot_dims, *i)),
            Expr::SlotDyn(_) => Some(None),
            Expr::Name(name) => Some(self.of_name(name)),
            Expr::Ref(_, _) => Some(None),
            Expr::PropRef(_, _) => Some(None),
            Expr::Neg(a) => self.of_expr(a),
            Expr::Arith(op, a, b) => match (self.of_expr(a), self.of_expr(b)) {
                (Some(x), Some(y)) => match op {
                    ArithOp::Mul => match (x, y) {
                        (Some(p), Some(q)) => Some(Some(p.times(q))),
                        _ => Some(None),
                    },
                    ArithOp::Div => match (x, y) {
                        (Some(p), Some(q)) => Some(Some(p.over(q))),
                        _ => Some(None),
                    },
                    _ => unify(x, y),
                },
                _ => None,
            },
            Expr::Compare(_, a, b) => match join(self.of_expr(a), self.of_expr(b)) {
                None => None,
                Some(_) => Some(None),
            },
            Expr::And(a, b) => match plain_check(self.of_expr(a)) {
                None => None,
                Some(_) => plain_check(self.of_expr(b)),
            },
            Expr::Or(a, b) => match plain_check(self.of_expr(a)) {
                None => None,
                Some(_) => plain_check(self.of_expr(b)),
            },
            Expr::Not(a) => plain_check(self.of_expr(a)),
            Expr::Call(name, args) => {
                proof {
                    assert(e@->Call_1 =~= expr_views(args@));
                }
                self.of_call(name, args)
            },
        }
    }
}

/// The locals that the first `k` statements leave, where they are consistent.
pub open spec fn locals_of(env: DimEnvView, s: Seq<LetStmtView>, k: nat) -> Option<
    Seq<(Seq<char>, Option<Dim>)>,
>
    decreases s, k,
{
    if k == 0 || k > s.len() {
        Some(env.locals)
    } else {
        match locals_of(env, s, (k - 1) as nat) {
            None => None,
            Some(locals) => {
                let inner = DimEnvView { locals, ..env };
                match s[k - 1] {
                    LetStmtView::Let(name, e) => match dim_of(inner, e) {
                        None => None,
                        Some(d) => Some(assoc_insert(locals, name, d)),
                    },
                    LetStmtView::Repeat(_, body) => locals_of(inner, body, body.len()),
                    LetStmtView::For(_, _, _, body) => locals_of(inner, body, body.len()),
                    LetStmtView::Break(Some(e)) => match dim_of(inner, e) {
                        None => None,
                        Some(_) => Some(locals),
                    },
                    LetStmtView::Continue(Some(e)) => match dim_of(inner, e) {
                        None => None,
                        Some(_) => Some(locals),
                    },
                    LetStmtView::Until(e) => match dim_of(inner, e) {
                        None => None,
                        Some(_) => Some(locals),
                    },
                    _ => Some(locals),
                }
            },
        }
    }
}

proof fn lemma_locals_fail(env: DimEnvView, s: Seq<LetStmtView>, k: nat)
    requires
        0 < k <= s.len(),
        locals_of(env, s, k) is None,
    ensures
        locals_of(env, s, s.len()) is None,
    decreases s.len() - k,
{
    if k < s.len() {
        lemma_locals_fail(env, s, k + 1);
    }
}

impl<'a> DimEnv<'a> {
    /// Binds the locals of statements; false where one is inconsistent.
    pub fn of_lets(&mut self, stmts: &Vec<LetStmt>) -> (r: bool)
        ensures
            match locals_of(old(self)@, stmt_views(stmts@), stmts@.len()) {
                None => !r,
                Some(locals) => r && final(self)@ == (DimEnvView { locals, ..old(self)@ }),
            },
        decreases stmts,
    {
        let ghost views = stmt_views(stmts@);
        let ghost start = self@;
        let mut i: usize = 0;
        while i < stmts.len()
            invariant
                i <= stmts.len(),
                views == stmt_views(stmts@),
                start == old(self)@,
                self@ == (DimEnvView { locals: self@.locals, ..start }),
                locals_of(start, views, i as nat) == Some(self@.locals),
            decreases stmts.len() - i,
        {
            proof {
                assert(views[i as int] == stmts@[i as int]@);
            }
            let ghost before = self@;
            let fits: bool = match &stmts[i] {
                LetStmt::Let(name, e) => match self.of_expr(e) {
                    Some(d) => {
                        self.locals.insert(name.clone(), d);
                        true
                    },
                    None => false,
                },
                LetStmt::Repeat(_, body) => {
                    proof {
                        assert(stmts@[i as int]@->Repeat_1 =~= stmt_views(body@));
                    }
                    self.of_lets(body)
                },
                LetStmt::For(_, _, _, body) => {
                    proof {
                        assert(stmts@[i as int]@->For_3 =~= stmt_views(body@));
                    }
                    self.of_lets(body)
                },
                LetStmt::Break(Some(e)) => self.of_expr(e).is_some(),
                LetStmt::Continue(Some(e)) => self.of_expr(e).is_some(),
                LetStmt::Until(e) => self.of_expr(e).is_some(),
                _ => true,
            };
            if !fits {
                proof {
                    lemma_locals_fail(start, views, (i + 1) as nat);
                }
                return false;
            }
            i = i + 1;
        }
        true
    }
}

/// What the entities declare of their slots, and whether any unit is declared.
pub struct Declared {
    pub slot_dims: Seq<Option<Dim>>,
    pub name_to_slot: Seq<(Seq<char>, usize)>,
    pub any: bool,
}

/// The slots with one more, unless its name is taken.
pub open spec fn with_slot_name(
    map: Seq<(Seq<char>, usize)>,
    name: Seq<char>,
    slot: usize,
) -> Seq<(Seq<char>, usize)> {
    if assoc_get(map, name) is Some {
        map
    } else {
        assoc_insert(map, name, slot)
    }
}

fn add_slot_name(map: &mut NameMap<usize>, name: String, slot: usize)
    ensures
        final(map)@ == with_slot_name(old(map)@, name@, slot),
{
    if !map.has(&name) {
        map.insert(name, slot);
    }
}

/// The slots of the first `k` names; the first slot of a name counts. The name of a
/// vector is that of its first component.
pub open spec fn with_slot_names(
    names: Seq<Option<Seq<char>>>,
    k: nat,
    map: Seq<(Seq<char>, usize)>,
) -> Seq<(Seq<char>, usize)>
    decreases k,
{
    if k == 0 || k > names.len() {
        map
    } else {
        let map = with_slot_names(names, (k - 1) as nat, map);
        match names[k - 1] {
            None => map,
            Some(name) => {
                let named = with_slot_name(map, name, (k - 1) as usize);
                match vector_name(name) {
                    Some(v) => with_slot_name(named, v, (k - 1) as usize),
                    None => named,
                }
            },
        }
    }
}

fn add_slot_names(names: &Vec<Option<String>>, map: &mut NameMap<usize>)
    ensures
        final(map)@ == with_slot_names(slot_names(names@), names@.len(), old(map)@),
{
    let ghost views = slot_names(names@);
    let mut k: usize = 0;
    while k < names.len()
        invariant
            k <= names.len(),
            views == slot_names(names@),
            map@ == with_slot_names(views, k as nat, old(map)@),
        decreases names.len() - k,
    {
        proof {
            assert(views[k as int] == text_view(names@[k as int]));
        }
        if let Some(name) = &names[k] {
            add_slot_name(map, name.clone(), k);
            if let Some(v) = vector_of(name) {
                add_slot_name(map, v, k);
            }
        }
        k = k + 1;
    }
}

/// A list of dimensions filled up to a length.
pub open spec fn resized(dims: Seq<Option<Dim>>, len: nat) -> Seq<Option<Dim>> {
    if len > dims.len() {
        dims + Seq::new((len - dims.len()) as nat, |i: int| None)
    } else {
        dims
    }
}

/// The dimensions with those of the first `k` slots; the first one declared counts.
pub open spec fn with_slot_units(
    units: Seq<Option<Dim>>,
    k: nat,
    dims: Seq<Option<Dim>>,
) -> Seq<Option<Dim>>
    decreases k,
{
    if k == 0 || k > units.len() {
        dims
    } else {
        let dims = with_slot_units(units, (k - 1) as nat, dims);
        if units[k - 1] is Some && k <= dims.len() && dims[k - 1] is None {
            dims.update(k - 1, units[k - 1])
        } else {
            dims
        }
    }
}

fn add_slot_units(units: &Vec<Option<Dim>>, dims: &mut Vec<Option<Dim>>)
    ensures
        final(dims)@ == with_slot_units(
            units@,
            units@.len(),
            resized(old(dims)@, units@.len()),
        ),
{
    let ghost start = resized(dims@, units@.len());
    while dims.len() < units.len()
        invariant
            resized(dims@, units@.len()) == start,
        decreases units.len() - dims.len(),
    {
        let ghost before = dims@;
        dims.push(None);
        proof {
            assert(resized(dims@, units@.len()) =~= resized(before, units@.len()));
        }
    }
    let mut k: usize = 0;
    while k < units.len()
        invariant
            k <= units.len(),
            dims.len() >= units.len(),
            dims@ == with_slot_units(units@, k as nat, start),
        decreases units.len() - k,
    {
        if units[k].is_some() && dims[k].is_none() {
            dims.set(k, units[k]);
        }
        k = k + 1;
    }
}

/// What the first `k` entities declare.
pub open spec fn declared_by(entities: Seq<EntityView>, k: nat) -> Declared
    decreases k,
{
    if k == 0 || k > entities.len() {
        Declared { slot_dims: Seq::empty(), name_to_slot: Seq::empty(), any: false }
    } else {
        let d = declared_by(entities, (k - 1) as nat);
        let e = entities[k - 1];
        Declared {
            name_to_slot: match e.state_names {
                None => d.name_to_slot,
                Some(names) => with_slot_names(names, names.len(), d.name_to_slot),
            },
            slot_dims: match e.state_units {
                None => d.slot_dims,
                Some(units) => with_slot_units(
                    units,
                    units.len(),
                    resized(d.slot_dims, units.len()),
                ),
            },
            any: d.any || (e.state_units is Some && crate::entity::any_unit(e.state_units->0)),
        }
    }
}

struct Slots {
    dims: Vec<Option<Dim>>,
    names: NameMap<usize>,
    any: bool,
}

fn read_declared(entities: &Vec<EntityDecl>) -> (r: Slots)
    ensures
        declared_by(entity_views(entities@), entities@.len()) == (Declared {
            slot_dims: r.dims@,
            name_to_slot: r.names@,
            any: r.any,
        }),
{
    let ghost views = entity_views(entities@);
    let mut dims: Vec<Option<Dim>> = Vec::new();
    let mut names: NameMap<usize> = NameMap::new();
    let mut any: bool = false;
    let mut k: usize = 0;
    while k < entities.len()
        invariant
            k <= entities.len(),
            views == entity_views(entities@),
            declared_by(views, k as nat) == (Declared {
                slot_dims: dims@,
                name_to_slot: names@,
                any,
            }),
        decreases entities.len() - k,
    {
        let e: &EntityDecl = &entities[k];
        proof {
            assert(views[k as int] == e@);
        }
        if let Some(list) = &e.state_names {
            add_slot_names(list, &mut names);
        }
        if let Some(units) = &e.state_units {
            add_slot_units(units, &mut dims);
            if crate::entity::has_unit(units) {
                any = true;
            }
        }
        k = k + 1;
    }
    Slots { dims, names, any }
}

/// The outcome of a check: the log, and the fault that stopped it.
pub struct Checked {
    pub log: Seq<DiagView>,
    pub fault: Option<FaultView>,
}

/// The check of the condition of a system. A condition that does not parse is only noted.
pub open spec fn gate_check(
    n: NumbersView,
    env: DimEnvView,
    d: SystemDeclView,
    log: Seq<DiagView>,
) -> Checked {
    match assoc_get(d.string_params, "when"@) {
        None => Checked { log, fault: None },
        Some(text) => match expr_text(n, text) {
            Err(f) => Checked { log: noted(log, f), fault: None },
            Ok(e) => match dim_of(env, e) {
                None => Checked { log, fault: Some(invalid(77)) },
                Some(dim) => if unified(dim, Some(plain())) is None {
                    Checked {
                        log,
                        fault: Some(
                            invalid_at(77, d.byte_offset, "`when` gate must be dimensionless"@),
                        ),
                    }
                } else {
                    Checked { log, fault: None }
                },
            },
        },
    }
}

/// The check of the expression that an invariant or a watch observes.
pub open spec fn observed_check(
    n: NumbersView,
    env: DimEnvView,
    d: SystemDeclView,
    log: Seq<DiagView>,
) -> Checked {
    if d.kind == "invariant"@ || d.kind == "watch"@ {
        match assoc_get(d.update, "expr"@) {
            None => Checked { log, fault: None },
            Some(text) => match expr_text(n, text) {
                Err(f) => Checked { log: noted(log, f), fault: None },
                Ok(e) => match dim_of(env, e) {
                    None => Checked { log, fault: Some(invalid(77)) },
                    Some(_) => Checked { log, fault: None },
                },
            },
        }
    } else {
        Checked { log, fault: None }
    }
}

/// The slot that a rule writes, where it is known in advance.
pub open spec fn rule_slot(env: DimEnvView, key: Seq<char>) -> Option<usize> {
    if dynamic_key(key) {
        None
    } else {
        match slot_number(key) {
            Some(i) => Some(i),
            None => assoc_get(env.name_to_slot, key),
        }
    }
}

/// The name of a dimension; an unknown one is that of plain numbers.
pub open spec fn known_text(d: Option<Dim>) -> Seq<char> {
    match d {
        Some(d) => dim_text(d),
        None => "1"@,
    }
}

/// The check of one rule: the step length times the expression must have the
/// dimension of the slot.
pub open spec fn rule_check(
    n: NumbersView,
    env: DimEnvView,
    d: SystemDeclView,
    lets: Seq<LetStmtView>,
    rule: (Seq<char>, Seq<char>),
    log: Seq<DiagView>,
) -> Checked {
    match rule_slot(env, rule.0) {
        None => Checked { log, fault: None },
        Some(slot) => match expr_text(n, rule.1) {
            Err(f) => Checked { log: noted(log, f), fault: None },
            Ok(e) => match locals_of(env, lets, lets.len()) {
                None => Checked { log, fault: Some(invalid(77)) },
                Some(locals) => match dim_of(DimEnvView { locals, ..env }, e) {
                    None => Checked { log, fault: Some(invalid(77)) },
                    Some(rhs) => {
                        let step = match assoc_get(d.param_units, "dt"@) {
                            Some(u) => u,
                            None => time(),
                        };
                        let scaled = match rhs {
                            Some(x) => Some(product(x, step)),
                            None => None,
                        };
                        let lhs = slot_dim(env.slot_dims, slot);
                        if unified(lhs, scaled) is None {
                            Checked {
                                log,
                                fault: Some(
                                    invalid_at(
                                        77,
                                        d.byte_offset,
                                        "rule `"@ + rule.1
                                            + "` is not dimensionally consistent: `"@ + known_text(
                                            lhs,
                                        ) + "` expected, right-hand side (`dt·expr`) has `"@
                                            + known_text(scaled) + "`"@,
                                    ),
                                ),
                            }
                        } else {
                            Checked { log, fault: None }
                        }
                    },
                },
            },
        },
    }
}

/// The check of the first `k` rules.
pub open spec fn rules_check(
    n: NumbersView,
    env: DimEnvView,
    d: SystemDeclView,
    lets: Seq<LetStmtView>,
    k: nat,
    log: Seq<DiagView>,
) -> Checked
    decreases k,
{
    if k == 0 || k > d.update.len() {
        Checked { log, fault: None }
    } else {
        let c = rules_check(n, env, d, lets, (k - 1) as nat, log);
        if c.fault is Some {
            c
        } else {
            rule_check(n, env, d, lets, d.update[k - 1], c.log)
        }
    }
}

proof fn lemma_rules_stop(
    n: NumbersView,
    env: DimEnvView,
    d: SystemDeclView,
    lets: Seq<LetStmtView>,
    k: nat,
    log: Seq<DiagView>,
)
    requires
        k <= d.update.len(),
        rules_check(n, env, d, lets, k, log).fault is Some,
    ensures
        rules_check(n, env, d, lets, d.update.len(), log) == rules_check(n, env, d, lets, k, log),
    decreases d.update.len() - k,
{
    if k < d.update.len() {
        lemma_rules_stop(n, env, d, lets, k + 1, log);
    }
}

/// The check of one system: its gate, what it observes, and the rules of an update or
/// Runge-Kutta system.
pub open spec fn system_check(
    n: NumbersView,
    env: DimEnvView,
    d: SystemDeclView,
    log: Seq<DiagView>,
) -> Checked {
    let c = gate_check(n, env, d, log);
    if c.fault is Some {
        c
    } else {
        let c = observed_check(n, env, d, c.log);
        if c.fault is Some || (d.kind != "update"@ && d.kind != "rk4"@) {
            c
        } else {
            match lets_of(n, d.update_stmts, d.update_stmts.len()) {
                Err(f) => Checked { log: c.log, fault: Some(f) },
                Ok(lets) => rules_check(n, env, d, lets, d.update.len(), c.log),
            }
        }
    }
}

/// The check of the first `k` systems.
pub open spec fn systems_check(
    n: NumbersView,
    env: DimEnvView,
    s: Seq<SystemDeclView>,
    k: nat,
    log: Seq<DiagView>,
) -> Checked
    decreases k,
{
    if k == 0 || k > s.len() {
        Checked { log, fault: None }
    } else {
        let c = systems_check(n, env, s, (k - 1) as nat, log);
        if c.fault is Some {
            c
        } else {
            system_check(n, env, s[k - 1], c.log)
        }
    }
}

proof fn lemma_systems_stop(
    n: NumbersView,
    env: DimEnvView,
    s: Seq<SystemDeclView>,
    k: nat,
    log: Seq<DiagView>,
)
    requires
        k <= s.len(),
        systems_check(n, env, s, k, log).fault is Some,
    ensures
        systems_check(n, env, s, s.len(), log) == systems_check(n, env, s, k, log),
    decreases s.len() - k,
{
    if k < s.len() {
        lemma_systems_stop(n, env, s, k + 1, log);
    }
}

/// What rules are checked against.
pub open spec fn checked_env(p: ProgramView) -> DimEnvView {
    let d = declared_by(p.model.entities, p.model.entities.len());
    DimEnvView {
        slot_dims: d.slot_dims,
        name_to_slot: d.name_to_slot,
        params: p.model.param_units,
        locals: Seq::empty(),
    }
}

/// The dimensional check of a program. Without any declared unit there is nothing to
/// check.
pub open spec fn dimension_check(n: NumbersView, p: ProgramView, log: Seq<DiagView>) -> Checked {
    let d = declared_by(p.model.entities, p.model.entities.len());
    if d.any || p.model.param_units.len() > 0 {
        systems_check(n, checked_env(p), p.systems, p.systems.len(), log)
    } else {
        Checked { log, fault: None }
    }
}

fn check_gate(
    numbers: &Numbers,
    env: &DimEnv,
    d: &SystemDecl,
    log: &mut Diagnostics,
) -> (r: Option<Fault>)
    ensures
        gate_check(numbers@, env@, d@, old(log)@) == (Checked {
            log: final(log)@,
            fault: fault_view(r),
        }),
{
    match d.string_params.get("when") {
        None => None,
        Some(text) => match parse_expr_str(numbers, text) {
            Err(f) => {
                log.note(f);
                None
            },
            Ok(e) => match env.of_expr(&e) {
                None => Some(reject(77)),
                Some(dim) => match unify(dim, Some(Dim::dimensionless())) {
                    None => Some(
                        reject_at(
                            77,
                            d.byte_offset,
                            "`when` gate must be dimensionless".to_owned(),
                        ),
                    ),
                    Some(_) => None,
                },
            },
        },
    }
}

fn check_observed(
    numbers: &Numbers,
    env: &DimEnv,
    d: &SystemDecl,
    log: &mut Diagnostics,
) -> (r: Option<Fault>)
    ensures
        observed_check(numbers@, env@, d@, old(log)@) == (Checked {
            log: final(log)@,
            fault: fault_view(r),
        }),
{
    if !(same(&d.kind, "invariant") || same(&d.kind, "watch")) {
        return None;
    }
    match d.update.get("expr") {
        None => None,
        Some(text) => match parse_expr_str(numbers, text) {
            Err(f) => {
                log.note(f);
                None
            },
            Ok(e) => match env.of_expr(&e) {
                None => Some(reject(77)),
                Some(_) => None,
            },
        },
    }
}

fn known_name(d: Option<Dim>) -> (r: String)
    ensures
        r@ == known_text(d),
{
    match d {
        Some(d) => d.name(),
        None => "1".to_owned(),
    }
}

fn slot_of_rule(env: &DimEnv, key: &str) -> (r: Option<usize>)
    ensures
        r == rule_slot(env@, key@),
{
    if is_dynamic_key(key) {
        return None;
    }
    match numeric_slot(key) {
        Some(i) => Some(i),
        None => match env.name_to_slot.get(key) {
            Some(i) => Some(*i),
            None => None,
        },
    }
}

fn mismatch(text: &str, lhs: Option<Dim>, scaled: Option<Dim>) -> (r: String)
    ensures
        r@ == "rule `"@ + text@ + "` is not dimensionally consistent: `"@ + known_text(lhs)
            + "` expected, right-hand side (`dt·expr`) has `"@ + known_text(scaled) + "`"@,
{
    let mut out: String = joined("rule `", text);
    out.append("` is not dimensionally consistent: `");
    out.append(&known_name(lhs));
    out.append("` expected, right-hand side (`dt·expr`) has `");
    out.append(&known_name(scaled));
    out.append("`");
    out
}

fn check_rule(
    numbers: &Numbers,
    env: &DimEnv,
    d: &SystemDecl,
    lets: &Vec<LetStmt>,
    key: &str,
    text: &str,
    log: &mut Diagnostics,
) -> (r: Option<Fault>)
    requires
        env@.locals == Seq::<(Seq<char>, Option<Dim>)>::empty(),
    ensures
        rule_check(numbers@, env@, d@, stmt_views(lets@), (key@, text@), old(log)@) == (Checked {
            log: final(log)@,
            fault: fault_view(r),
        }),
{
    let slot: usize = match slot_of_rule(env, key) {
        Some(i) => i,
        None => return None,
    };
    let e: Expr = match parse_expr_str(numbers, text) {
        Ok(e) => e,
        Err(f) => {
            log.note(f);
            return None;
        },
    };
    let mut inner: DimEnv = DimEnv {
        slot_dims: env.slot_dims,
        name_to_slot: env.name_to_slot,
        params: env.params,
        locals: NameMap::new(),
    };
    proof {
        assert(inner@ == env@);
    }
    if !inner.of_lets(lets) {
        return Some(reject(77));
    }
    match inner.of_expr(&e) {
        None => Some(reject(77)),
        Some(rhs) => {
            let step: Dim = match d.param_units.get("dt") {
                Some(u) => *u,
                None => Dim::seconds(),
            };
            let scaled: Option<Dim> = match rhs {
                Some(x) => Some(x.times(step)),
                None => None,
            };
            let lhs: Option<Dim> = dim_of_slot(env.slot_dims, slot);
            match unify(lhs, scaled) {
                None => Some(reject_at(77, d.byte_offset, mismatch(text, lhs, scaled))),
                Some(_) => None,
            }
        },
    }
}

fn check_rules(
    numbers: &Numbers,
    env: &DimEnv,
    d: &SystemDecl,
    lets: &Vec<LetStmt>,
    log: &mut Diagnostics,
) -> (r: Option<Fault>)
    requires
        env@.locals == Seq::<(Seq<char>, Option<Dim>)>::empty(),
    ensures
        rules_check(
            numbers@,
            env@,
            d@,
            stmt_views(lets@),
            d@.update.len(),
            old(log)@,
        ) == (Checked { log: final(log)@, fault: fault_view(r) }),
{
    let ghost dv = d@;
    let ghost views = stmt_views(lets@);
    let ghost start = log@;
    let mut k: usize = 0;
    while k < d.update.entries.len()
        invariant
            k <= d.update.entries.len(),
            dv == d@,
            dv.update.len() == d.update.entries.len(),
            views == stmt_views(lets@),
            start == old(log)@,
            env@.locals == Seq::<(Seq<char>, Option<Dim>)>::empty(),
            rules_check(numbers@, env@, dv, views, k as nat, start) == (Checked {
                log: log@,
                fault: None,
            }),
        decreases d.update.entries.len() - k,
    {
        let key: &String = &d.update.entries[k].0;
        let text: &String = &d.update.entries[k].1;
        proof {
            assert(dv.update[k as int] == (key@, text@));
        }
        match check_rule(numbers, env, d, lets, key, text, log) {
            None => {},
            Some(f) => {
                proof {
                    lemma_rules_stop(numbers@, env@, dv, views, (k + 1) as nat, start);
                }
                return Some(f);
            },
        }
        k = k + 1;
    }
    None
}

fn check_system(
    numbers: &Numbers,
    env: &DimEnv,
    d: &SystemDecl,
    log: &mut Diagnostics,
) -> (r: Option<Fault>)
    requires
        env@.locals == Seq::<(Seq<char>, Option<Dim>)>::empty(),
    ensures
        system_check(numbers@, env@, d@, old(log)@) == (Checked {
            log: final(log)@,
            fault: fault_view(r),
        }),
{
    if let Some(f) = check_gate(numbers, env, d, log) {
        return Some(f);
    }
    if let Some(f) = check_observed(numbers, env, d, log) {
        return Some(f);
    }
    if !same(&d.kind, "update") && !same(&d.kind, "rk4") {
        return None;
    }
    match to_let_stmts(numbers, &d.update_stmts) {
        Err(f) => Some(f),
        Ok(lets) => check_rules(numbers, env, d, &lets, log),
    }
}

/// Checks the rules of a program against the declared units. Expressions that do not
/// parse are noted in the log and left to the systems that use them.
pub fn check_dimensions(numbers: &Numbers, parsed: &ParsedProgram, log: &mut Diagnostics) -> (r:
    Option<Fault>)
    ensures
        dimension_check(numbers@, parsed@, old(log)@) == (Checked {
            log: final(log)@,
            fault: fault_view(r),
        }),
{
    let slots: Slots = read_declared(&parsed.model.entities);
    proof {
        assert(parsed@.model.param_units.len() == parsed.model.param_units.entries@.len());
        assert(parsed@.model.entities == entity_views(parsed.model.entities@));
    }
    if !slots.any && parsed.model.param_units.entries.len() == 0 {
        return None;
    }
    let env: DimEnv = DimEnv {
        slot_dims: &slots.dims,
        name_to_slot: &slots.names,
        params: &parsed.model.param_units,
        locals: NameMap::new(),
    };
    let ghost systems = system_decl_views(parsed.systems@);
    let ghost start = log@;
    proof {
        assert(env@ == checked_env(parsed@));
    }
    let mut k: usize = 0;
    while k < parsed.systems.len()
        invariant
            k <= parsed.systems.len(),
            systems == system_decl_views(parsed.systems@),
            start == old(log)@,
            env@.locals == Seq::<(Seq<char>, Option<Dim>)>::empty(),
            dimension_check(numbers@, parsed@, start) == systems_check(
                numbers@,
                env@,
                systems,
                systems.len(),
                start,
            ),
            systems_check(numbers@, env@, systems, k as nat, start) == (Checked {
                log: log@,
                fault: None,
            }),
        decreases parsed.systems.len() - k,
    {
        proof {
            assert(systems[k as int] == parsed.systems@[k as int]@);
        }
        match check_system(numbers, &env, &parsed.systems[k], log) {
            None => {},
            Some(f) => {
                proof {
                    lemma_systems_stop(numbers@, env@, systems, (k + 1) as nat, start);
                }
                return Some(f);
            },
        }
        k = k + 1;
    }
    None
}

proof fn lemma_no_units(entities: Seq<EntityView>, k: nat)
    requires
        k <= entities.len(),
        forall|i: int|
            0 <= i < entities.len() ==> ((#[trigger] entities[i]).state_units matches Some(u)
                ==> !crate::entity::any_unit(u)),
    ensures
        !declared_by(entities, k).any,
    decreases k,
{
    if k > 0 {
        lemma_no_units(entities, (k - 1) as nat);
        assert(entities[k - 1].state_units matches Some(u) ==> !crate::entity::any_unit(u));
    }
}

/// A program that declares no unit passes the check, and nothing is noted.
pub proof fn law_unit_free_programs_pass(n: NumbersView, p: ProgramView, log: Seq<DiagView>)
    requires
        p.model.param_units.len() == 0,
        forall|i: int|
            0 <= i < p.model.entities.len() ==> ((
            #[trigger] p.model.entities[i]).state_units matches Some(u)
                ==> !crate::entity::any_unit(u)),
    ensures
        dimension_check(n, p, log) == (Checked { log, fault: None }),
{
    lemma_no_units(p.model.entities, p.model.entities.len());
}

/// A value without a declared unit fits every other, on either side.
pub proof fn law_unknown_units_fit_all(d: Option<Dim>)
    ensures
        unified(None, d) == Some(d),
        unified(d, None) == Some(d),
{
}

/// The dimension of a product of two values with known dimensions: the exponents add up.
pub proof fn law_product_dimension(env: DimEnvView, a: ExprView, b: ExprView, x: Dim, y: Dim)
    requires
        dim_of(env, a) == Some(Some(x)),
        dim_of(env, b) == Some(Some(y)),
    ensures
        dim_of(env, ExprView::Arith(ArithOp::Mul, Box::new(a), Box::new(b))) matches Some(Some(d))
            && forall|i: int|
            0 <= i < 7 && holdable(exponents(x)[i] + exponents(y)[i]) ==> #[trigger] exponents(d)[i]
                == exponents(x)[i] + exponents(y)[i],
{
}

proof fn lemma_arith_dim(env: DimEnvView, a: ExprView, b: ExprView, x: Dim, y: Dim)
    requires
        dim_of(env, a) == Some(Some(x)),
        dim_of(env, b) == Some(Some(y)),
    ensures
        dim_of(env, ExprView::Arith(ArithOp::Mul, Box::new(a), Box::new(b))) == Some(
            Some(product(x, y)),
        ),
        dim_of(env, ExprView::Arith(ArithOp::Div, Box::new(a), Box::new(b))) == Some(
            Some(ratio(x, y)),
        ),
{
}

/// The dimension of a quotient of two values with known dimensions: the exponents of the
/// divisor are taken off those of the dividend. Times the divisor it is that of the
/// dividend again, and a value over itself is a plain number.
pub proof fn law_quotient_dimension(env: DimEnvView, a: ExprView, b: ExprView, x: Dim, y: Dim)
    requires
        dim_of(env, a) == Some(Some(x)),
        dim_of(env, b) == Some(Some(y)),
    ensures
        ({
            let q = ExprView::Arith(ArithOp::Div, Box::new(a), Box::new(b));
            &&& dim_of(env, q) matches Some(Some(d)) && forall|i: int|
                0 <= i < 7 && holdable(exponents(x)[i] - exponents(y)[i]) ==> #[trigger] exponents(
                    d,
                )[i] == exponents(x)[i] - exponents(y)[i]
            &&& dim_of(env, ExprView::Arith(ArithOp::Mul, Box::new(q), Box::new(b))) == Some(
                Some(x),
            )
            &&& dim_of(env, ExprView::Arith(ArithOp::Div, Box::new(a), Box::new(a))) == Some(
                Some(Dim { m: 0, kg: 0, s: 0, a: 0, k: 0, mol: 0, cd: 0 }),
            )
        }),
{
    let q = ExprView::Arith(ArithOp::Div, Box::new(a), Box::new(b));
    lemma_arith_dim(env, a, b, x, y);
    lemma_arith_dim(env, a, a, x, x);
    lemma_arith_dim(env, q, b, ratio(x, y), y);
    law_ratio_undoes_product(x, y);
}

/// Sums, differences and remainders of values with known dimensions: both must have the
/// same one, which the result has too.
pub proof fn law_sum_dimension(
    env: DimEnvView,
    op: ArithOp,
    a: ExprView,
    b: ExprView,
    x: Dim,
    y: Dim,
)
    requires
        op == ArithOp::Add || op == ArithOp::Sub || op == ArithOp::Rem,
        dim_of(env, a) == Some(Some(x)),
        dim_of(env, b) == Some(Some(y)),
    ensures
        dim_of(env, ExprView::Arith(op, Box::new(a), Box::new(b))) == (if x == y {
            Some(Some(x))
        } else {
            None
        }),
{
}

/// A comparison holds its sides to one dimension, and negation changes none.
pub proof fn law_compared_dimensions(
    env: DimEnvView,
    op: Relation,
    a: ExprView,
    b: ExprView,
    x: Dim,
    y: Dim,
)
    requires
        dim_of(env, a) == Some(Some(x)),
        dim_of(env, b) == Some(Some(y)),
    ensures
        dim_of(env, ExprView::Compare(op, Box::new(a), Box::new(b))) is Some <==> x == y,
        dim_of(env, ExprView::Neg(Box::new(a))) == Some(Some(x)),
{
}

/// What is inconsistent in a part is inconsistent in the whole.
pub proof fn law_inconsistency_spreads(env: DimEnvView, op: ArithOp, a: ExprView, b: ExprView)
    requires
        dim_of(env, a) is None || dim_of(env, b) is None,
    ensures
        dim_of(env, ExprView::Arith(op, Box::new(a), Box::new(b))) is None,
        dim_of(env, ExprView::And(Box::new(a), Box::new(b))) is None,
        dim_of(env, ExprView::Or(Box::new(a), Box::new(b))) is None,
        dim_of(env, a) is None ==> dim_of(env, ExprView::Neg(Box::new(a))) is None,
        dim_of(env, a) is None ==> dim_of(env, ExprView::Not(Box::new(a))) is None,
{
}

/// An operand of unknown dimension leaves a product, a quotient and a power unknown, and
/// fits any sum.
pub proof fn law_unknown_operand(env: DimEnvView, a: ExprView, b: ExprView, y: Option<Dim>)
    requires
        dim_of(env, a) == Some(None::<Dim>),
        dim_of(env, b) == Some(y),
    ensures
        dim_of(env, ExprView::Arith(ArithOp::Mul, Box::new(a), Box::new(b))) == Some(None::<Dim>),
        dim_of(env, ExprView::Arith(ArithOp::Div, Box::new(a), Box::new(b))) == Some(None::<Dim>),
        dim_of(env, ExprView::Arith(ArithOp::Div, Box::new(b), Box::new(a))) == Some(None::<Dim>),
        dim_of(env, ExprView::Arith(ArithOp::Add, Box::new(a), Box::new(b))) == Some(y),
        dim_of(env, ExprView::Arith(ArithOp::Sub, Box::new(b), Box::new(a))) == Some(y),
{
}

/// The functions of plain numbers refuse every argument of another known dimension.
pub proof fn law_plain_functions(env: DimEnvView, a: ExprView, x: Dim)
    requires
        dim_of(env, a) == Some(Some(x)),
    ensures
        ({
            let unit_free = x == Dim { m: 0, kg: 0, s: 0, a: 0, k: 0, mol: 0, cd: 0 };
            &&& dim_of(env, ExprView::Call("sin"@, seq![a])) is Some <==> unit_free
            &&& dim_of(env, ExprView::Call("cos"@, seq![a])) is Some <==> unit_free
            &&& dim_of(env, ExprView::Call("exp"@, seq![a])) is Some <==> unit_free
            &&& dim_of(env, ExprView::Call("ln"@, seq![a])) is Some <==> unit_free
            &&& dim_of(env, ExprView::Call("tanh"@, seq![a])) is Some <==> unit_free
            &&& dim_of(env, ExprView::Not(Box::new(a))) is Some <==> unit_free
        }),
{
    reveal_with_fuel(dim_of, 2);
    let args = seq![a];
    assert(args[0] == a);
    assert(arg_dim(env, args, 0) == Some(Some(x)));
}

/// A square root has half the exponents of its argument, and the magnitude of a value has
/// its dimension.
pub proof fn law_root_dimension(env: DimEnvView, a: ExprView, x: Dim)
    requires
        dim_of(env, a) == Some(Some(x)),
    ensures
        match dim_of(env, ExprView::Call("sqrt"@, seq![a])) {
            Some(Some(d)) => forall|i: int|
                0 <= i < 7 ==> 2 * #[trigger] exponents(d)[i] == exponents(x)[i],
            Some(None) => false,
            None => exists|i: int| 0 <= i < 7 && #[trigger] exponents(x)[i] % 2 == 1,
        },
        dim_of(env, ExprView::Call("abs"@, seq![a])) == Some(Some(x)),
{
    lemma_root_names();
    reveal_with_fuel(dim_of, 2);
    let args = seq![a];
    assert(args[0] == a);
    assert(arg_dim(env, args, 0) == Some(Some(x)));
    law_root_halves_exponents(x);
}

proof fn lemma_root_names()
    ensures
        !wants_plain("sqrt"@),
        !keeps_dim("sqrt"@),
        !wants_plain("abs"@),
{
    reveal_strlit("sqrt");
    reveal_strlit("abs");
    reveal_strlit("sin");
    reveal_strlit("cos");
    reveal_strlit("exp");
    reveal_strlit("ln");
    reveal_strlit("log10");
    reveal_strlit("log2");
    reveal_strlit("sinh");
    reveal_strlit("cosh");
    reveal_strlit("tanh");
    reveal_strlit("asin");
    reveal_strlit("acos");
    reveal_strlit("atan");
    reveal_strlit("floor");
    reveal_strlit("ceil");
    reveal_strlit("round");
    reveal_strlit("sign");
    reveal_strlit("print");
    assert("sqrt"@[1] == 'q');
    assert("abs"@[1] == 'b');
    assert("sin"@[1] == 'i');
    assert("cos"@[1] == 'o');
    assert("exp"@[1] == 'x');
    assert("ln"@[1] == 'n');
    assert("log10"@[1] == 'o');
    assert("log2"@[1] == 'o');
    assert("sinh"@[1] == 'i');
    assert("cosh"@[1] == 'o');
    assert("tanh"@[1] == 'a');
    assert("asin"@[1] == 's');
    assert("acos"@[1] == 'c');
    assert("atan"@[1] == 't');
    assert("floor"@[1] == 'l');
    assert("ceil"@[1] == 'e');
    assert("round"@[1] == 'o');
    assert("sign"@[1] == 'i');
    assert("print"@[1] == 'r');
}

/// A rule for a slot of a known dimension, whose expression has a known dimension too, is
/// refused for its units exactly where the dimension of the expression, times that of the
/// step, is not that of the slot. A step without a unit counts in seconds.
pub proof fn law_rule_is_checked_over_the_step(
    n: NumbersView,
    env: DimEnvView,
    d: SystemDeclView,
    rule: (Seq<char>, Seq<char>),
    log: Seq<DiagView>,
    e: ExprView,
    slot: usize,
    x: Dim,
    y: Dim,
)
    requires
        rule_slot(env, rule.0) == Some(slot),
        slot < env.slot_dims.len() && env.slot_dims[slot as int] == Some(x),
        expr_text(n, rule.1) == Ok::<ExprView, FaultView>(e),
        dim_of(env, e) == Some(Some(y)),
        forall|i: int|
            0 <= i < 7 ==> holdable(
                #[trigger] exponents(y)[i] + exponents(step_unit(d))[i],
            ),
    ensures
        match rule_check(n, env, d, Seq::empty(), rule, log).fault {
            None => forall|i: int|
                0 <= i < 7 ==> #[trigger] exponents(x)[i] == exponents(y)[i] + exponents(
                    step_unit(d),
                )[i],
            Some(f) => f.error.detail == 77 && exists|i: int|
                0 <= i < 7 && #[trigger] exponents(x)[i] != exponents(y)[i] + exponents(
                    step_unit(d),
                )[i],
        },
        rule_check(n, env, d, Seq::empty(), rule, log).log == log,
{
    let step = step_unit(d);
    assert(DimEnvView { locals: env.locals, ..env } == env);
    let scaled = product(y, step);
    assert forall|i: int| 0 <= i < 7 implies #[trigger] exponents(scaled)[i] == exponents(y)[i]
        + exponents(step)[i] by {
        assert(holdable(exponents(y)[i] + exponents(step)[i]));
        law_product_adds_exponents(y, step, i);
    }
    if x != scaled {
        if forall|i: int| 0 <= i < 7 ==> #[trigger] exponents(x)[i] == exponents(y)[i] + exponents(
            step,
        )[i] {
            assert forall|i: int| 0 <= i < 7 implies #[trigger] exponents(x)[i] == exponents(
                scaled,
            )[i] by {
                assert(exponents(scaled)[i] == exponents(y)[i] + exponents(step)[i]);
            }
            law_exponents_make_the_dimension(x, scaled);
        }
    } else {
        assert forall|i: int| 0 <= i < 7 implies #[trigger] exponents(x)[i] == exponents(y)[i]
            + exponents(step)[i] by {
            assert(exponents(scaled)[i] == exponents(y)[i] + exponents(step)[i]);
        }
    }
}

/// The unit of the step of a system: seconds, where none is given.
pub open spec fn step_unit(d: SystemDeclView) -> Dim {
    match assoc_get(d.param_units, "dt"@) {
        Some(u) => u,
        None => Dim { m: 0, kg: 0, s: 1, a: 0, k: 0, mol: 0, cd: 0 },
    }
}

} // verus!
