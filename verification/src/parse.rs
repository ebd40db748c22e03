//! Programs out of their text.

use crate::decl::{
    bare_entity, bare_world, func_views, system_decl_views, text_views, update_views, ChanDecl,
    EntityDecl, FieldDecl, FieldView, FuncDecl, FuncView, ModelView, ParsedProgram, PoolDecl,
    PoolView, ProgramView, SystemDecl, SystemDeclView, UpdateStmt, UpdateView, WorldModel,
};
use crate::double::{below, less_than, saturated, to_usize, undefined};
use crate::eir::ONE;
use crate::entity::{
    apply_entity_fields, parse_value, parse_values, parse_vec3, triple_of, unquote, unquoted,
    value_of, values_of, with_fields,
};
use crate::expr::{Expr, ExprView};
use crate::fault::{invalid, invalid_at, reject, reject_at, Fault, FaultView};
use crate::grammar::Rule;
use crate::names::{assoc_get, assoc_insert, same, NameMap, ViewMap};
use crate::numbers::{scalar, Numbers, NumbersView};
use crate::peg::{lemma_children, parse_rule, parsed, trees, Node, Tree};
use crate::shapes::{build_shape, parts_of};
use crate::stmts::{binding_of, build_binding, build_loop_stmt, loop_of};
use crate::syntax::{build_expr, expr_of};
use crate::text::{decimal, parse_decimal, trim, trimmed};
use crate::units::{parse_unit, unit_dim};
use vstd::prelude::*;
use vstd::string::*;

verus! {

/// The number of bytes of a character.
pub open spec fn byte_len(c: char) -> nat {
    if (c as u32) < 0x80 {
        1
    } else if (c as u32) < 0x800 {
        2
    } else if (c as u32) < 0x1_0000 {
        3
    } else {
        4
    }
}

/// The number of bytes of the first `k` characters.
pub open spec fn byte_count(s: Seq<char>, k: nat) -> nat
    decreases k,
{
    if k == 0 || k > s.len() {
        0
    } else {
        byte_count(s, (k - 1) as nat) + byte_len(s[k - 1])
    }
}

/// The byte offset of a character.
pub open spec fn byte_place(s: Seq<char>, k: nat) -> usize {
    if byte_count(s, k) > usize::MAX {
        usize::MAX
    } else {
        byte_count(s, k) as usize
    }
}

/// Computes [`byte_place`].
pub fn byte_offset(text: &str, k: usize) -> (r: usize)
    ensures
        r == byte_place(text@, k as nat),
{
    let chars: Vec<char> = crate::names::chars_of(text);
    if k > chars.len() {
        return 0;
    }
    let mut sum: usize = 0;
    let mut i: usize = 0;
    while i < k
        invariant
            i <= k <= chars.len(),
            chars@ == text@,
            sum == byte_place(text@, i as nat),
        decreases k - i,
    {
        let c: u32 = chars[i] as u32;
        let len: usize = if c < 0x80 {
            1
        } else if c < 0x800 {
            2
        } else if c < 0x1_0000 {
            3
        } else {
            4
        };
        sum = if sum > usize::MAX - len {
            usize::MAX
        } else {
            sum + len
        };
        i = i + 1;
    }
    sum
}

/// The parameters whose raw text counts, whatever it looks like.
pub open spec fn keeps_text(key: Seq<char>) -> bool {
    key == "chan"@ || key == "on"@ || key == "when"@ || key == "field"@ || key == "source"@ || key
        == "prev"@ || key == "pool"@
}

fn is_text_key(key: &str) -> (r: bool)
    ensures
        r == keeps_text(key@),
{
    same(key, "chan") || same(key, "on") || same(key, "when") || same(key, "field") || same(
        key,
        "source",
    ) || same(key, "prev") || same(key, "pool")
}

/// A system with the right side of one assignment.
pub open spec fn with_assignment(
    n: NumbersView,
    key: Seq<char>,
    rhs: Tree,
    d: SystemDeclView,
) -> SystemDeclView {
    match rhs.rule {
        Rule::VecN => SystemDeclView {
            vec_params: assoc_insert(d.vec_params, key, values_of(n, rhs.children)),
            ..d
        },
        Rule::Expr => {
            let text = trimmed(rhs.text);
            if keeps_text(key) {
                SystemDeclView { string_params: assoc_insert(d.string_params, key, text), ..d }
            } else {
                match scalar(n, text) {
                    Some(v) => SystemDeclView { params: assoc_insert(d.params, key, v), ..d },
                    None => SystemDeclView { update: assoc_insert(d.update, key, text), ..d },
                }
            }
        },
        Rule::Ident => SystemDeclView {
            string_params: assoc_insert(d.string_params, key, rhs.text),
            ..d
        },
        _ => d,
    }
}

/// A system with the unit that follows an assignment, if there is one.
pub open spec fn with_unit(kids: Seq<Tree>, d: SystemDeclView) -> SystemDeclView {
    if kids.len() > 2 && kids[2].rule == Rule::UnitExpr {
        match unit_dim(kids[2].text) {
            Some(u) => SystemDeclView {
                param_units: assoc_insert(d.param_units, kids[0].text, u),
                ..d
            },
            None => d,
        }
    } else {
        d
    }
}

/// A system with one more statement or parameter. A bare call is kept as a binding
/// that nothing reads.
#[verifier::opaque]
pub open spec fn with_param(n: NumbersView, t: Tree, d: SystemDeclView) -> Result<
    SystemDeclView,
    FaultView,
> {
    let kids = t.children;
    if kids.len() == 0 {
        Err(invalid(56))
    } else {
        let first = kids[0];
        match first.rule {
            Rule::LetStmt => match binding_of(first, d.byte_offset) {
                Err(f) => Err(f),
                Ok(s) => Ok(SystemDeclView { update_stmts: d.update_stmts.push(s), ..d }),
            },
            Rule::RepeatStmt => match loop_of(n, first, d.byte_offset) {
                Err(f) => Err(f),
                Ok(s) => Ok(SystemDeclView { update_stmts: d.update_stmts.push(s), ..d }),
            },
            Rule::ForStmt => match loop_of(n, first, d.byte_offset) {
                Err(f) => Err(f),
                Ok(s) => Ok(SystemDeclView { update_stmts: d.update_stmts.push(s), ..d }),
            },
            Rule::Call => Ok(
                SystemDeclView {
                    update_stmts: d.update_stmts.push(
                        UpdateView::Let("_"@, trimmed(first.text)),
                    ),
                    ..d
                },
            ),
            Rule::SlotLhs => if kids.len() < 2 || kids[1].rule != Rule::Expr {
                Err(invalid(55))
            } else {
                Ok(
                    SystemDeclView {
                        update: assoc_insert(d.update, first.text, trimmed(kids[1].text)),
                        ..d
                    },
                )
            },
            _ => if kids.len() < 2 {
                Err(invalid(56))
            } else {
                Ok(with_unit(kids, with_assignment(n, first.text, kids[1], d)))
            },
        }
    }
}

fn push_stmt(stmts: &mut Vec<UpdateStmt>, s: UpdateStmt)
    ensures
        update_views(final(stmts)@) == update_views(old(stmts)@).push(s@),
{
    stmts.push(s);
    proof {
        assert(update_views(stmts@) =~= update_views(old(stmts)@).push(s@));
    }
}

fn store_assignment(numbers: &Numbers, key: &String, rhs: &Node, decl: &mut SystemDecl)
    ensures
        final(decl)@ == with_assignment(numbers@, key@, rhs@, old(decl)@),
{
    proof {
        lemma_children(*rhs);
    }
    match rhs.rule {
        Rule::VecN => {
            decl.vec_params.insert(key.clone(), parse_values(numbers, &rhs.children));
        },
        Rule::Expr => {
            let text: String = trim(&rhs.text);
            if is_text_key(key) {
                decl.string_params.insert(key.clone(), text);
            } else {
                match numbers.parse_scalar_number(&text) {
                    Some(v) => {
                        decl.params.insert(key.clone(), v);
                    },
                    None => {
                        decl.update.insert(key.clone(), text);
                    },
                }
            }
        },
        Rule::Ident => {
            decl.string_params.insert(key.clone(), rhs.text.clone());
        },
        _ => {},
    }
}

/// Stores one parameter or statement of a system in the place where it belongs.
pub fn store_param(numbers: &Numbers, param: &Node, decl: &mut SystemDecl) -> (r: Option<Fault>)
    ensures
        match r {
            None => with_param(numbers@, param@, old(decl)@) == Ok::<SystemDeclView, FaultView>(
                final(decl)@,
            ),
            Some(f) => with_param(numbers@, param@, old(decl)@) == Err::<
                SystemDeclView,
                FaultView,
            >(f@),
        },
{
    let kids: &Vec<Node> = &param.children;
    proof {
        reveal(with_param);
        lemma_children(*param);
    }
    if kids.len() == 0 {
        return Some(reject(56));
    }
    let first: &Node = &kids[0];
    proof {
        assert(param@.children[0] == first@);
    }
    match first.rule {
        Rule::LetStmt => match build_binding(first, decl.byte_offset) {
            Ok(s) => {
                push_stmt(&mut decl.update_stmts, s);
                None
            },
            Err(f) => Some(f),
        },
        Rule::RepeatStmt | Rule::ForStmt => match build_loop_stmt(
            numbers,
            first,
            decl.byte_offset,
        ) {
            Ok(s) => {
                push_stmt(&mut decl.update_stmts, s);
                None
            },
            Err(f) => Some(f),
        },
        Rule::Call => {
            push_stmt(
                &mut decl.update_stmts,
                UpdateStmt::Let("_".to_owned(), trim(&first.text)),
            );
            None
        },
        Rule::SlotLhs => {
            if kids.len() < 2 {
                return Some(reject(55));
            }
            proof {
                assert(param@.children[1] == kids@[1]@);
            }
            if kids[1].rule != Rule::Expr {
                return Some(reject(55));
            }
            decl.update.insert(first.text.clone(), trim(&kids[1].text));
            None
        },
        _ => {
            if kids.len() < 2 {
                return Some(reject(56));
            }
            proof {
                assert(param@.children[1] == kids@[1]@);
            }
            store_assignment(numbers, &first.text, &kids[1], decl);
            if kids.len() > 2 {
                proof {
                    assert(param@.children[2] == kids@[2]@);
                }
                if kids[2].rule == Rule::UnitExpr {
                    if let Some(u) = parse_unit(&kids[2].text) {
                        decl.param_units.insert(first.text.clone(), u);
                    }
                }
            }
            None
        },
    }
}

/// A system with the parameters of the nodes from `from` up to the `k`-th.
pub open spec fn with_params(
    n: NumbersView,
    kids: Seq<Tree>,
    from: nat,
    k: nat,
    d: SystemDeclView,
) -> Result<SystemDeclView, FaultView>
    decreases k,
{
    if k <= from || k > kids.len() {
        Ok(d)
    } else {
        match with_params(n, kids, from, (k - 1) as nat, d) {
            Err(f) => Err(f),
            Ok(d) => with_param(n, kids[k - 1], d),
        }
    }
}

proof fn lemma_params_fail(
    n: NumbersView,
    kids: Seq<Tree>,
    from: nat,
    k: nat,
    d: SystemDeclView,
    f: FaultView,
)
    requires
        from < k <= kids.len(),
        with_params(n, kids, from, k, d) == Err::<SystemDeclView, FaultView>(f),
    ensures
        with_params(n, kids, from, kids.len(), d) == Err::<SystemDeclView, FaultView>(f),
    decreases kids.len() - k,
{
    if k < kids.len() {
        lemma_params_fail(n, kids, from, k + 1, d, f);
    }
}

/// A system of which nothing but the kind and the place is given.
pub open spec fn bare_system(kind: Seq<char>, byte_offset: usize) -> SystemDeclView {
    SystemDeclView {
        kind,
        params: Seq::empty(),
        vec_params: Seq::empty(),
        update: Seq::empty(),
        update_stmts: Seq::empty(),
        string_params: Seq::empty(),
        param_units: Seq::empty(),
        byte_offset,
        namespace: Seq::empty(),
    }
}

fn new_system(kind: String, byte_offset: usize) -> (r: SystemDecl)
    ensures
        r@ == bare_system(kind@, byte_offset),
{
    let r = SystemDecl {
        kind,
        params: NameMap::new(),
        vec_params: ViewMap::new(),
        update: ViewMap::new(),
        update_stmts: Vec::new(),
        string_params: ViewMap::new(),
        param_units: ViewMap::new(),
        byte_offset,
        namespace: "".to_owned(),
    };
    proof {
        reveal_strlit("");
        assert(r@.namespace =~= Seq::<char>::empty());
        assert(r@.update_stmts =~= Seq::<UpdateView>::empty());
    }
    r
}

/// The system of a node. Channel systems have their kind from their rule, the others
/// from their leading name.
pub open spec fn system_of(n: NumbersView, source: Seq<char>, t: Tree) -> Result<
    SystemDeclView,
    FaultView,
> {
    let kids = t.children;
    let place = byte_place(source, t.start);
    match t.rule {
        Rule::SendSystem => with_params(n, kids, 0, kids.len(), bare_system("send"@, place)),
        Rule::RecvSystem => with_params(n, kids, 0, kids.len(), bare_system("recv"@, place)),
        _ => if kids.len() == 0 {
            Err(invalid(60))
        } else {
            with_params(n, kids, 1, kids.len(), bare_system(kids[0].text, place))
        },
    }
}

fn build_system(numbers: &Numbers, source: &str, node: &Node) -> (r: Result<SystemDecl, Fault>)
    ensures
        match r {
            Ok(d) => system_of(numbers@, source@, node@) == Ok::<SystemDeclView, FaultView>(d@),
            Err(f) => system_of(numbers@, source@, node@) == Err::<SystemDeclView, FaultView>(f@),
        },
{
    let kids: &Vec<Node> = &node.children;
    let ghost nodes = trees(kids@);
    proof {
        lemma_children(*node);
    }
    let place: usize = byte_offset(source, node.start);
    let mut from: usize = 0;
    let kind: String = match node.rule {
        Rule::SendSystem => "send".to_owned(),
        Rule::RecvSystem => "recv".to_owned(),
        _ => {
            if kids.len() == 0 {
                return Err(reject(60));
            }
            proof {
                assert(nodes[0] == kids@[0]@);
            }
            from = 1;
            kids[0].text.clone()
        },
    };
    let mut decl: SystemDecl = new_system(kind, place);
    let ghost bare = decl@;
    let mut k: usize = from;
    while k < kids.len()
        invariant
            from <= k <= kids.len(),
            nodes == trees(kids@),
            system_of(numbers@, source@, node@) == with_params(
                numbers@,
                nodes,
                from as nat,
                nodes.len(),
                bare,
            ),
            with_params(numbers@, nodes, from as nat, k as nat, bare) == Ok::<
                SystemDeclView,
                FaultView,
            >(decl@),
        decreases kids.len() - k,
    {
        proof {
            assert(nodes[k as int] == kids@[k as int]@);
        }
        match store_param(numbers, &kids[k], &mut decl) {
            None => {},
            Some(f) => {
                proof {
                    lemma_params_fail(numbers@, nodes, from as nat, (k + 1) as nat, bare, f@);
                }
                return Err(f);
            },
        }
        k = k + 1;
    }
    Ok(decl)
}

/// The numeric settings of a field, out of the nodes from the second up to the
/// `k`-th.
pub open spec fn settings_of(n: NumbersView, kids: Seq<Tree>, k: nat) -> Seq<(Seq<char>, u64)>
    decreases k,
{
    if k <= 1 || k > kids.len() {
        Seq::empty()
    } else {
        let s = settings_of(n, kids, (k - 1) as nat);
        let c = kids[k - 1].children;
        if c.len() < 2 {
            s
        } else {
            match scalar(n, trimmed(c[1].text)) {
                Some(v) => assoc_insert(s, c[0].text, v),
                None => s,
            }
        }
    }
}

/// A setting, or its default.
pub open spec fn setting(s: Seq<(Seq<char>, u64)>, key: Seq<char>, default: u64) -> u64 {
    match assoc_get(s, key) {
        Some(v) => v,
        None => default,
    }
}

/// A count that is at least one.
pub open spec fn at_least_one(bits: u64) -> usize {
    if undefined(bits) || below(bits, ONE) {
        saturated(ONE, usize::MAX as nat) as usize
    } else {
        saturated(bits, usize::MAX as nat) as usize
    }
}

/// The field of a declaration. It needs a width and a height; a depth and a cell size
/// are one where they are not given.
pub open spec fn field_of(n: NumbersView, kids: Seq<Tree>) -> Result<FieldView, FaultView> {
    if kids.len() == 0 {
        Err(invalid(60))
    } else {
        let s = settings_of(n, kids, kids.len());
        let width = saturated(setting(s, "width"@, 0), usize::MAX as nat) as usize;
        let height = saturated(setting(s, "height"@, 0), usize::MAX as nat) as usize;
        if width == 0 || height == 0 {
            Err(invalid(75))
        } else {
            Ok(
                FieldView {
                    name: kids[0].text,
                    width,
                    height,
                    depth: at_least_one(setting(s, "depth"@, ONE)),
                    dx: setting(s, "dx"@, ONE),
                },
            )
        }
    }
}

fn setting_of(s: &NameMap<u64>, key: &str, default: u64) -> (r: u64)
    ensures
        r == setting(s@, key@, default),
{
    match s.get(key) {
        Some(v) => *v,
        None => default,
    }
}

fn build_field(numbers: &Numbers, kids: &Vec<Node>) -> (r: Result<FieldDecl, Fault>)
    ensures
        match r {
            Ok(d) => field_of(numbers@, trees(kids@)) == Ok::<FieldView, FaultView>(d@),
            Err(f) => field_of(numbers@, trees(kids@)) == Err::<FieldView, FaultView>(f@),
        },
{
    let ghost nodes = trees(kids@);
    if kids.len() == 0 {
        return Err(reject(60));
    }
    proof {
        assert(nodes[0] == kids@[0]@);
    }
    let mut s: NameMap<u64> = NameMap::new();
    let mut k: usize = 1;
    while k < kids.len()
        invariant
            1 <= k <= kids.len(),
            nodes == trees(kids@),
            s@ == settings_of(numbers@, nodes, k as nat),
        decreases kids.len() - k,
    {
        let p: &Node = &kids[k];
        proof {
            assert(nodes[k as int] == p@);
            lemma_children(*p);
        }
        if p.children.len() >= 2 {
            proof {
                assert(p@.children[0] == p.children@[0]@);
                assert(p@.children[1] == p.children@[1]@);
            }
            match numbers.parse_scalar_number(&trim(&p.children[1].text)) {
                Some(v) => {
                    s.insert(p.children[0].text.clone(), v);
                },
                None => {},
            }
        }
        k = k + 1;
    }
    let width: usize = to_usize(setting_of(&s, "width", 0));
    let height: usize = to_usize(setting_of(&s, "height", 0));
    if width == 0 || height == 0 {
        return Err(reject(75));
    }
    let raw: u64 = setting_of(&s, "depth", ONE);
    let depth: usize = if crate::double::is_undefined(raw) || less_than(raw, ONE) {
        to_usize(ONE)
    } else {
        to_usize(raw)
    };
    Ok(
        FieldDecl {
            name: kids[0].text.clone(),
            width,
            height,
            depth,
            dx: setting_of(&s, "dx", ONE),
        },
    )
}

/// Parameters under construction: the world, and the name that was read last, if any.
pub struct Pending {
    pub model: ModelView,
    pub key: Option<Seq<char>>,
}

/// One more token of a parameter block. A name comes before its value, and a unit behind
/// it: both count for the name that was read last.
pub open spec fn with_token(n: NumbersView, t: Tree, p: Pending) -> Pending {
    match t.rule {
        Rule::Ident => Pending { key: Some(t.text), ..p },
        Rule::Value => match (p.key, scalar(n, trimmed(t.text))) {
            (Some(k), Some(v)) => Pending {
                model: ModelView { params: assoc_insert(p.model.params, k, v), ..p.model },
                ..p
            },
            _ => p,
        },
        Rule::UnitExpr => match (p.key, unit_dim(t.text)) {
            (Some(k), Some(d)) => Pending {
                model: ModelView { param_units: assoc_insert(p.model.param_units, k, d), ..p.model },
                ..p
            },
            _ => p,
        },
        _ => p,
    }
}

/// The first `k` tokens of a parameter block.
pub open spec fn with_tokens(n: NumbersView, kids: Seq<Tree>, k: nat, m: ModelView) -> Pending
    decreases k,
{
    if k == 0 || k > kids.len() {
        Pending { model: m, key: None }
    } else {
        with_token(n, kids[k - 1], with_tokens(n, kids, (k - 1) as nat, m))
    }
}

fn add_params(numbers: &Numbers, kids: &Vec<Node>, model: &mut WorldModel)
    ensures
        final(model)@ == with_tokens(numbers@, trees(kids@), kids@.len(), old(model)@).model,
{
    let ghost nodes = trees(kids@);
    let mut key: Option<String> = None;
    let mut k: usize = 0;
    while k < kids.len()
        invariant
            k <= kids.len(),
            nodes == trees(kids@),
            with_tokens(numbers@, nodes, k as nat, old(model)@) == (Pending {
                model: model@,
                key: crate::fault::text_view(key),
            }),
        decreases kids.len() - k,
    {
        let node: &Node = &kids[k];
        proof {
            assert(nodes[k as int] == node@);
        }
        match node.rule {
            Rule::Ident => {
                key = Some(node.text.clone());
            },
            Rule::Value => {
                let value: Option<u64> = numbers.parse_scalar_number(&trim(&node.text));
                if let Some(name) = &key {
                    if let Some(v) = value {
                        model.params.insert(name.clone(), v);
                    }
                }
            },
            Rule::UnitExpr => {
                if let Some(name) = &key {
                    if let Some(d) = parse_unit(&node.text) {
                        model.param_units.insert(name.clone(), d);
                    }
                }
            },
            _ => {},
        }
        k = k + 1;
    }
}

/// The size of a pool.
pub open spec fn pool_count(text: Seq<char>) -> u32 {
    match decimal(text) {
        Some(n) => if n <= u32::MAX {
            n as u32
        } else {
            0
        },
        None => 0,
    }
}

fn parse_pool_count(text: &str) -> (r: u32)
    ensures
        r == pool_count(text@),
{
    match parse_decimal(text) {
        Some(n) => {
            if n <= u32::MAX as usize {
                n as u32
            } else {
                0
            }
        },
        None => 0,
    }
}

/// The world with one more declaration.
pub open spec fn with_decl(n: NumbersView, t: Tree, m: ModelView) -> Result<ModelView, FaultView> {
    let kids = t.children;
    if t.rule == Rule::ParamsStmt {
        Ok(with_tokens(n, kids, kids.len(), m).model)
    } else if kids.len() == 0 {
        Ok(m)
    } else {
        match t.rule {
            Rule::GravityStmt => Ok(ModelView { gravity: triple_of(n, kids[0]), ..m }),
            Rule::TitleStmt => Ok(ModelView { title: Some(unquoted(trimmed(kids[0].text))), ..m }),
            Rule::ChanStmt => Ok(
                ModelView {
                    channels: m.channels.push(
                        (
                            kids[0].text,
                            if kids.len() > 1 {
                                value_of(n, kids[1])
                            } else {
                                0
                            },
                        ),
                    ),
                    ..m
                },
            ),
            Rule::ShapeStmt => Ok(
                ModelView {
                    shapes: assoc_insert(m.shapes, kids[0].text, parts_of(n, kids, kids.len())),
                    ..m
                },
            ),
            Rule::FieldStmt => match field_of(n, kids) {
                Err(f) => Err(f),
                Ok(d) => Ok(ModelView { fields: m.fields.push(d), ..m }),
            },
            Rule::EntityStmt => match with_fields(
                n,
                kids,
                1,
                kids.len(),
                bare_entity(kids[0].text),
            ) {
                Err(f) => Err(f),
                Ok(e) => Ok(ModelView { entities: m.entities.push(e), ..m }),
            },
            Rule::PoolStmt => match with_fields(
                n,
                kids,
                2,
                kids.len(),
                bare_entity(kids[0].text),
            ) {
                Err(f) => Err(f),
                Ok(decl) => Ok(
                    ModelView {
                        pools: m.pools.push(
                            PoolView {
                                name: kids[0].text,
                                count: if kids.len() > 1 {
                                    pool_count(kids[1].text)
                                } else {
                                    0
                                },
                                decl,
                            },
                        ),
                        ..m
                    },
                ),
            },
            _ => Ok(m),
        }
    }
}

fn add_channel(model: &mut WorldModel, name: String, value: u64)
    ensures
        final(model)@ == (ModelView {
            channels: old(model)@.channels.push((name@, value)),
            ..old(model)@
        }),
{
    model.channels.push(ChanDecl { name, value });
    proof {
        assert(model@.channels =~= old(model)@.channels.push((name@, value)));
    }
}

fn add_field(model: &mut WorldModel, field: FieldDecl)
    ensures
        final(model)@ == (ModelView {
            fields: old(model)@.fields.push(field@),
            ..old(model)@
        }),
{
    model.fields.push(field);
    proof {
        assert(model@.fields =~= old(model)@.fields.push(field@));
    }
}

fn add_entity(model: &mut WorldModel, entity: EntityDecl)
    ensures
        final(model)@ == (ModelView {
            entities: old(model)@.entities.push(entity@),
            ..old(model)@
        }),
{
    model.entities.push(entity);
    proof {
        assert(model@.entities =~= old(model)@.entities.push(entity@));
    }
}

fn add_pool(model: &mut WorldModel, pool: PoolDecl)
    ensures
        final(model)@ == (ModelView { pools: old(model)@.pools.push(pool@), ..old(model)@ }),
{
    model.pools.push(pool);
    proof {
        assert(model@.pools =~= old(model)@.pools.push(pool@));
    }
}

fn add_decl(numbers: &Numbers, node: &Node, model: &mut WorldModel) -> (r: Option<Fault>)
    ensures
        match r {
            None => with_decl(numbers@, node@, old(model)@) == Ok::<ModelView, FaultView>(
                final(model)@,
            ),
            Some(f) => with_decl(numbers@, node@, old(model)@) == Err::<ModelView, FaultView>(f@),
        },
{
    let kids: &Vec<Node> = &node.children;
    proof {
        lemma_children(*node);
    }
    if node.rule == Rule::ParamsStmt {
        add_params(numbers, kids, model);
        return None;
    }
    if kids.len() == 0 {
        return None;
    }
    proof {
        assert(node@.children[0] == kids@[0]@);
        if kids@.len() > 1 {
            assert(node@.children[1] == kids@[1]@);
        }
    }
    match node.rule {
        Rule::GravityStmt => {
            model.gravity = parse_vec3(numbers, &kids[0]);
        },
        Rule::TitleStmt => {
            model.title = Some(unquote(&trim(&kids[0].text)));
        },
        Rule::ChanStmt => {
            let value: u64 = if kids.len() > 1 {
                parse_value(numbers, &kids[1])
            } else {
                0
            };
            add_channel(model, kids[0].text.clone(), value);
        },
        Rule::ShapeStmt => {
            model.shapes.insert(kids[0].text.clone(), build_shape(numbers, kids));
        },
        Rule::FieldStmt => match build_field(numbers, kids) {
            Ok(d) => add_field(model, d),
            Err(f) => return Some(f),
        },
        Rule::EntityStmt => {
            let mut decl: EntityDecl = EntityDecl::named(kids[0].text.clone());
            match apply_entity_fields(numbers, kids, 1, &mut decl) {
                None => add_entity(model, decl),
                Some(f) => return Some(f),
            }
        },
        Rule::PoolStmt => {
            let count: u32 = if kids.len() > 1 {
                parse_pool_count(&kids[1].text)
            } else {
                0
            };
            let mut decl: EntityDecl = EntityDecl::named(kids[0].text.clone());
            match apply_entity_fields(numbers, kids, 2, &mut decl) {
                None => add_pool(model, PoolDecl { name: kids[0].text.clone(), count, decl }),
                Some(f) => return Some(f),
            }
        },
        _ => {},
    }
    None
}

/// The world with the first `k` declarations of a section.
pub open spec fn with_decls(n: NumbersView, kids: Seq<Tree>, k: nat, m: ModelView) -> Result<
    ModelView,
    FaultView,
>
    decreases k,
{
    if k == 0 || k > kids.len() {
        Ok(m)
    } else {
        match with_decls(n, kids, (k - 1) as nat, m) {
            Err(f) => Err(f),
            Ok(m) => with_decl(n, kids[k - 1], m),
        }
    }
}

proof fn lemma_decls_fail(n: NumbersView, kids: Seq<Tree>, k: nat, m: ModelView, f: FaultView)
    requires
        0 < k <= kids.len(),
        with_decls(n, kids, k, m) == Err::<ModelView, FaultView>(f),
    ensures
        with_decls(n, kids, kids.len(), m) == Err::<ModelView, FaultView>(f),
    decreases kids.len() - k,
{
    if k < kids.len() {
        lemma_decls_fail(n, kids, k + 1, m, f);
    }
}

fn add_decls(numbers: &Numbers, kids: &Vec<Node>, model: &mut WorldModel) -> (r: Option<Fault>)
    ensures
        match r {
            None => with_decls(numbers@, trees(kids@), kids@.len(), old(model)@) == Ok::<
                ModelView,
                FaultView,
            >(final(model)@),
            Some(f) => with_decls(numbers@, trees(kids@), kids@.len(), old(model)@) == Err::<
                ModelView,
                FaultView,
            >(f@),
        },
{
    let ghost nodes = trees(kids@);
    let mut k: usize = 0;
    while k < kids.len()
        invariant
            k <= kids.len(),
            nodes == trees(kids@),
            with_decls(numbers@, nodes, k as nat, old(model)@) == Ok::<ModelView, FaultView>(
                model@,
            ),
        decreases kids.len() - k,
    {
        proof {
            assert(nodes[k as int] == kids@[k as int]@);
        }
        match add_decl(numbers, &kids[k], model) {
            None => {},
            Some(f) => {
                proof {
                    lemma_decls_fail(numbers@, nodes, (k + 1) as nat, old(model)@, f@);
                }
                return Some(f);
            },
        }
        k = k + 1;
    }
    None
}

/// The systems with those of the first `k` nodes of a section.
pub open spec fn with_systems(
    n: NumbersView,
    source: Seq<char>,
    kids: Seq<Tree>,
    k: nat,
    s: Seq<SystemDeclView>,
) -> Result<Seq<SystemDeclView>, FaultView>
    decreases k,
{
    if k == 0 || k > kids.len() {
        Ok(s)
    } else {
        match with_systems(n, source, kids, (k - 1) as nat, s) {
            Err(f) => Err(f),
            Ok(s) => match system_of(n, source, kids[k - 1]) {
                Err(f) => Err(f),
                Ok(d) => Ok(s.push(d)),
            },
        }
    }
}

proof fn lemma_systems_fail(
    n: NumbersView,
    source: Seq<char>,
    kids: Seq<Tree>,
    k: nat,
    s: Seq<SystemDeclView>,
    f: FaultView,
)
    requires
        0 < k <= kids.len(),
        with_systems(n, source, kids, k, s) == Err::<Seq<SystemDeclView>, FaultView>(f),
    ensures
        with_systems(n, source, kids, kids.len(), s) == Err::<Seq<SystemDeclView>, FaultView>(f),
    decreases kids.len() - k,
{
    if k < kids.len() {
        lemma_systems_fail(n, source, kids, k + 1, s, f);
    }
}

fn add_systems(
    numbers: &Numbers,
    source: &str,
    kids: &Vec<Node>,
    systems: &mut Vec<SystemDecl>,
) -> (r: Option<Fault>)
    ensures
        match r {
            None => with_systems(
                numbers@,
                source@,
                trees(kids@),
                kids@.len(),
                system_decl_views(old(systems)@),
            ) == Ok::<Seq<SystemDeclView>, FaultView>(system_decl_views(final(systems)@)),
            Some(f) => with_systems(
                numbers@,
                source@,
                trees(kids@),
                kids@.len(),
                system_decl_views(old(systems)@),
            ) == Err::<Seq<SystemDeclView>, FaultView>(f@),
        },
{
    let ghost nodes = trees(kids@);
    let ghost first = system_decl_views(systems@);
    let mut k: usize = 0;
    while k < kids.len()
        invariant
            k <= kids.len(),
            nodes == trees(kids@),
            first == system_decl_views(old(systems)@),
            with_systems(numbers@, source@, nodes, k as nat, first) == Ok::<
                Seq<SystemDeclView>,
                FaultView,
            >(system_decl_views(systems@)),
        decreases kids.len() - k,
    {
        proof {
            assert(nodes[k as int] == kids@[k as int]@);
        }
        match build_system(numbers, source, &kids[k]) {
            Ok(d) => {
                let ghost before = system_decl_views(systems@);
                systems.push(d);
                proof {
                    assert(system_decl_views(systems@) =~= before.push(d@));
                }
            },
            Err(f) => {
                proof {
                    lemma_systems_fail(numbers@, source@, nodes, (k + 1) as nat, first, f@);
                }
                return Some(f);
            },
        }
        k = k + 1;
    }
    None
}

/// The texts of nodes.
pub open spec fn node_texts(kids: Seq<Tree>) -> Seq<Seq<char>> {
    kids.map_values(|t: Tree| t.text)
}

fn texts_of(kids: &Vec<Node>) -> (r: Vec<String>)
    ensures
        text_views(r@) == node_texts(trees(kids@)),
{
    let mut r: Vec<String> = Vec::new();
    let mut i: usize = 0;
    while i < kids.len()
        invariant
            i <= kids.len(),
            r@.len() == i,
            forall|j: int| 0 <= j < i ==> (#[trigger] r@[j])@ == kids@[j].text@,
        decreases kids.len() - i,
    {
        r.push(kids[i].text.clone());
        i = i + 1;
    }
    proof {
        assert(text_views(r@) =~= node_texts(trees(kids@)));
    }
    r
}

/// The parameters of a function: those of the last list among the nodes from the
/// second up to the `k`-th.
pub open spec fn func_params(kids: Seq<Tree>, k: nat) -> Seq<Seq<char>>
    decreases k,
{
    if k <= 1 || k > kids.len() {
        Seq::empty()
    } else if kids[k - 1].rule == Rule::ParamList {
        node_texts(kids[k - 1].children)
    } else {
        func_params(kids, (k - 1) as nat)
    }
}

/// The body of a function: the last such node among those from the second up to the
/// `k`-th.
pub open spec fn func_body(kids: Seq<Tree>, k: nat) -> Option<Tree>
    decreases k,
{
    if k <= 1 || k > kids.len() {
        None
    } else if kids[k - 1].rule == Rule::FuncStmts || kids[k - 1].rule == Rule::Expr {
        Some(kids[k - 1])
    } else {
        func_body(kids, (k - 1) as nat)
    }
}

/// The statements of a function body from the `i`-th node on, behind those before it,
/// and the expression behind `return`.
pub open spec fn func_items(
    n: NumbersView,
    kids: Seq<Tree>,
    i: nat,
    stmts: Seq<UpdateView>,
    ret: Option<ExprView>,
) -> Result<(Seq<UpdateView>, Option<ExprView>), FaultView>
    decreases kids.len() - i,
{
    if i >= kids.len() {
        Ok((stmts, ret))
    } else {
        let t = kids[i as int];
        match t.rule {
            Rule::LetStmt => match binding_of(t, 0) {
                Err(f) => Err(f),
                Ok(s) => func_items(n, kids, i + 1, stmts.push(s), ret),
            },
            Rule::RepeatStmt => match loop_of(n, t, 0) {
                Err(f) => Err(f),
                Ok(s) => func_items(n, kids, i + 1, stmts.push(s), ret),
            },
            Rule::ForStmt => match loop_of(n, t, 0) {
                Err(f) => Err(f),
                Ok(s) => func_items(n, kids, i + 1, stmts.push(s), ret),
            },
            Rule::ReturnWord => if i + 1 >= kids.len() {
                Err(invalid(55))
            } else {
                match expr_of(n, kids[i as int + 1]) {
                    Err(f) => Err(f),
                    Ok(e) => func_items(n, kids, i + 2, stmts, Some(e)),
                }
            },
            _ => func_items(n, kids, i + 1, stmts, ret),
        }
    }
}

/// The function of a node.
pub open spec fn func_of(n: NumbersView, t: Tree) -> Result<FuncView, FaultView> {
    let kids = t.children;
    if kids.len() == 0 {
        Err(invalid(60))
    } else {
        match func_body(kids, kids.len()) {
            None => Err(invalid(55)),
            Some(b) => {
                let body = if b.rule == Rule::Expr {
                    match expr_of(n, b) {
                        Err(f) => Err(f),
                        Ok(e) => Ok((Seq::empty(), Some(e))),
                    }
                } else {
                    func_items(n, b.children, 0, Seq::empty(), None)
                };
                match body {
                    Err(f) => Err(f),
                    Ok((_, None)) => Err(invalid(55)),
                    Ok((stmts, Some(ret))) => Ok(
                        FuncView {
                            name: kids[0].text,
                            namespace: Seq::empty(),
                            params: func_params(kids, kids.len()),
                            stmts,
                            body: ret,
                        },
                    ),
                }
            },
        }
    }
}

fn build_func_stmts(numbers: &Numbers, kids: &Vec<Node>) -> (r: Result<
    (Vec<UpdateStmt>, Option<Expr>),
    Fault,
>)
    ensures
        match r {
            Ok((s, e)) => func_items(numbers@, trees(kids@), 0, Seq::empty(), None) == Ok::<
                (Seq<UpdateView>, Option<ExprView>),
                FaultView,
            >((update_views(s@), crate::expr::cond_view(e))),
            Err(f) => func_items(numbers@, trees(kids@), 0, Seq::empty(), None) == Err::<
                (Seq<UpdateView>, Option<ExprView>),
                FaultView,
            >(f@),
        },
{
    let ghost nodes = trees(kids@);
    let mut stmts: Vec<UpdateStmt> = Vec::new();
    let mut ret: Option<Expr> = None;
    proof {
        assert(update_views(stmts@) =~= Seq::<UpdateView>::empty());
    }
    let mut i: usize = 0;
    while i < kids.len()
        invariant
            i <= kids.len(),
            nodes == trees(kids@),
            func_items(numbers@, nodes, 0, Seq::empty(), None) == func_items(
                numbers@,
                nodes,
                i as nat,
                update_views(stmts@),
                crate::expr::cond_view(ret),
            ),
        decreases kids.len() - i,
    {
        let node: &Node = &kids[i];
        proof {
            assert(nodes[i as int] == node@);
        }
        match node.rule {
            Rule::LetStmt => {
                match build_binding(node, 0) {
                    Ok(s) => push_stmt(&mut stmts, s),
                    Err(f) => return Err(f),
                }
                i = i + 1;
            },
            Rule::RepeatStmt | Rule::ForStmt => {
                match build_loop_stmt(numbers, node, 0) {
                    Ok(s) => push_stmt(&mut stmts, s),
                    Err(f) => return Err(f),
                }
                i = i + 1;
            },
            Rule::ReturnWord => {
                if kids.len() - i < 2 {
                    return Err(reject(55));
                }
                proof {
                    assert(nodes[i + 1] == kids@[i + 1]@);
                }
                match build_expr(numbers, &kids[i + 1]) {
                    Ok(e) => {
                        ret = Some(e);
                    },
                    Err(f) => return Err(f),
                }
                i = i + 2;
            },
            _ => {
                i = i + 1;
            },
        }
    }
    Ok((stmts, ret))
}

fn find_func_params(kids: &Vec<Node>) -> (r: Vec<String>)
    ensures
        text_views(r@) == func_params(trees(kids@), kids@.len()),
{
    let ghost nodes = trees(kids@);
    let mut k: usize = kids.len();
    while k > 1
        invariant
            k <= kids.len(),
            nodes == trees(kids@),
            func_params(nodes, kids@.len()) == func_params(nodes, k as nat),
        decreases k,
    {
        let node: &Node = &kids[k - 1];
        proof {
            assert(nodes[k - 1] == node@);
            lemma_children(*node);
        }
        if node.rule == Rule::ParamList {
            return texts_of(&node.children);
        }
        k = k - 1;
    }
    let r: Vec<String> = Vec::new();
    proof {
        assert(text_views(r@) =~= Seq::<Seq<char>>::empty());
    }
    r
}

fn find_func_body(kids: &Vec<Node>) -> (r: Option<&Node>)
    ensures
        func_body(trees(kids@), kids@.len()) == (match r {
            Some(n) => Some(n@),
            None => None,
        }),
{
    let ghost nodes = trees(kids@);
    let mut k: usize = kids.len();
    while k > 1
        invariant
            k <= kids.len(),
            nodes == trees(kids@),
            func_body(nodes, kids@.len()) == func_body(nodes, k as nat),
        decreases k,
    {
        let node: &Node = &kids[k - 1];
        proof {
            assert(nodes[k - 1] == node@);
        }
        if node.rule == Rule::FuncStmts || node.rule == Rule::Expr {
            return Some(node);
        }
        k = k - 1;
    }
    None
}

fn build_func(numbers: &Numbers, node: &Node) -> (r: Result<FuncDecl, Fault>)
    ensures
        match r {
            Ok(d) => func_of(numbers@, node@) == Ok::<FuncView, FaultView>(d@),
            Err(f) => func_of(numbers@, node@) == Err::<FuncView, FaultView>(f@),
        },
{
    let kids: &Vec<Node> = &node.children;
    proof {
        lemma_children(*node);
    }
    if kids.len() == 0 {
        return Err(reject(60));
    }
    proof {
        assert(node@.children[0] == kids@[0]@);
    }
    let body: &Node = match find_func_body(kids) {
        Some(b) => b,
        None => return Err(reject(55)),
    };
    proof {
        lemma_children(*body);
    }
    let stmts: Vec<UpdateStmt>;
    let ret: Option<Expr>;
    if body.rule == Rule::Expr {
        match build_expr(numbers, body) {
            Ok(e) => {
                stmts = Vec::new();
                ret = Some(e);
                proof {
                    assert(update_views(stmts@) =~= Seq::<UpdateView>::empty());
                }
            },
            Err(f) => return Err(f),
        }
    } else {
        match build_func_stmts(numbers, &body.children) {
            Ok((s, e)) => {
                stmts = s;
                ret = e;
            },
            Err(f) => return Err(f),
        }
    }
    match ret {
        None => Err(reject(55)),
        Some(e) => {
            proof {
                reveal_strlit("");
                assert(""@ =~= Seq::<char>::empty());
            }
            Ok(
                FuncDecl {
                    name: kids[0].text.clone(),
                    namespace: "".to_owned(),
                    params: find_func_params(kids),
                    stmts,
                    body: e,
                },
            )
        },
    }
}

/// The functions with those of the first `k` nodes of a section.
pub open spec fn with_funcs(n: NumbersView, kids: Seq<Tree>, k: nat, s: Seq<FuncView>) -> Result<
    Seq<FuncView>,
    FaultView,
>
    decreases k,
{
    if k == 0 || k > kids.len() {
        Ok(s)
    } else {
        match with_funcs(n, kids, (k - 1) as nat, s) {
            Err(f) => Err(f),
            Ok(s) => match func_of(n, kids[k - 1]) {
                Err(f) => Err(f),
                Ok(d) => Ok(s.push(d)),
            },
        }
    }
}

proof fn lemma_funcs_fail(n: NumbersView, kids: Seq<Tree>, k: nat, s: Seq<FuncView>, f: FaultView)
    requires
        0 < k <= kids.len(),
        with_funcs(n, kids, k, s) == Err::<Seq<FuncView>, FaultView>(f),
    ensures
        with_funcs(n, kids, kids.len(), s) == Err::<Seq<FuncView>, FaultView>(f),
    decreases kids.len() - k,
{
    if k < kids.len() {
        lemma_funcs_fail(n, kids, k + 1, s, f);
    }
}

fn add_funcs(numbers: &Numbers, kids: &Vec<Node>, funcs: &mut Vec<FuncDecl>) -> (r: Option<Fault>)
    ensures
        match r {
            None => with_funcs(numbers@, trees(kids@), kids@.len(), func_views(old(funcs)@)) == Ok::<
                Seq<FuncView>,
                FaultView,
            >(func_views(final(funcs)@)),
            Some(f) => with_funcs(
                numbers@,
                trees(kids@),
                kids@.len(),
                func_views(old(funcs)@),
            ) == Err::<Seq<FuncView>, FaultView>(f@),
        },
{
    let ghost nodes = trees(kids@);
    let ghost first = func_views(funcs@);
    let mut k: usize = 0;
    while k < kids.len()
        invariant
            k <= kids.len(),
            nodes == trees(kids@),
            first == func_views(old(funcs)@),
            with_funcs(numbers@, nodes, k as nat, first) == Ok::<Seq<FuncView>, FaultView>(
                func_views(funcs@),
            ),
        decreases kids.len() - k,
    {
        proof {
            assert(nodes[k as int] == kids@[k as int]@);
        }
        match build_func(numbers, &kids[k]) {
            Ok(d) => {
                let ghost before = func_views(funcs@);
                funcs.push(d);
                proof {
                    assert(func_views(funcs@) =~= before.push(d@));
                }
            },
            Err(f) => {
                proof {
                    lemma_funcs_fail(numbers@, nodes, (k + 1) as nat, first, f@);
                }
                return Some(f);
            },
        }
        k = k + 1;
    }
    None
}

/// The program with one more section.
#[verifier::opaque]
pub open spec fn with_section(n: NumbersView, source: Seq<char>, t: Tree, p: ProgramView) -> Result<
    ProgramView,
    FaultView,
> {
    let kids = t.children;
    match t.rule {
        Rule::WorldSection => match with_decls(n, kids, kids.len(), p.model) {
            Err(f) => Err(f),
            Ok(model) => Ok(ProgramView { model, ..p }),
        },
        Rule::SystemsSection => match with_systems(n, source, kids, kids.len(), p.systems) {
            Err(f) => Err(f),
            Ok(systems) => Ok(ProgramView { systems, ..p }),
        },
        Rule::FuncsSection => match with_funcs(n, kids, kids.len(), p.funcs) {
            Err(f) => Err(f),
            Ok(funcs) => Ok(ProgramView { funcs, ..p }),
        },
        _ => Ok(p),
    }
}

/// The program of the first `k` sections.
pub open spec fn sections_of(n: NumbersView, source: Seq<char>, nodes: Seq<Tree>, k: nat) -> Result<
    ProgramView,
    FaultView,
>
    decreases k,
{
    if k == 0 || k > nodes.len() {
        Ok(ProgramView { model: bare_world(), systems: Seq::empty(), funcs: Seq::empty() })
    } else {
        match sections_of(n, source, nodes, (k - 1) as nat) {
            Err(f) => Err(f),
            Ok(p) => with_section(n, source, nodes[k - 1], p),
        }
    }
}

/// The program that a text stands for.
pub open spec fn program_of(n: NumbersView, source: Seq<char>) -> Result<ProgramView, FaultView> {
    match parsed(Rule::Program, source) {
        None => Err(invalid_at(60, 0, "failed to parse program"@)),
        Some(nodes) => sections_of(n, source, nodes, nodes.len()),
    }
}

/// The view of a parse result.
pub open spec fn program_result(r: Result<ParsedProgram, Fault>) -> Result<ProgramView, FaultView> {
    match r {
        Ok(p) => Ok(p@),
        Err(f) => Err(f@),
    }
}

proof fn lemma_sections_fail(
    n: NumbersView,
    source: Seq<char>,
    nodes: Seq<Tree>,
    k: nat,
    f: FaultView,
)
    requires
        0 < k <= nodes.len(),
        sections_of(n, source, nodes, k) == Err::<ProgramView, FaultView>(f),
    ensures
        sections_of(n, source, nodes, nodes.len()) == Err::<ProgramView, FaultView>(f),
    decreases nodes.len() - k,
{
    if k < nodes.len() {
        lemma_sections_fail(n, source, nodes, k + 1, f);
    }
}

fn add_section(numbers: &Numbers, source: &str, node: &Node, p: &mut ParsedProgram) -> (r: Option<
    Fault,
>)
    ensures
        match r {
            None => with_section(numbers@, source@, node@, old(p)@) == Ok::<ProgramView, FaultView>(
                final(p)@,
            ),
            Some(f) => with_section(numbers@, source@, node@, old(p)@) == Err::<
                ProgramView,
                FaultView,
            >(f@),
        },
{
    proof {
        reveal(with_section);
        lemma_children(*node);
    }
    match node.rule {
        Rule::WorldSection => add_decls(numbers, &node.children, &mut p.model),
        Rule::SystemsSection => add_systems(numbers, source, &node.children, &mut p.systems),
        Rule::FuncsSection => add_funcs(numbers, &node.children, &mut p.funcs),
        _ => None,
    }
}

/// Parses a program text into a world with its systems and functions.
pub fn parse(source: &str, numbers: &Numbers) -> (r: Result<ParsedProgram, Fault>)
    ensures
        program_result(r) == program_of(numbers@, source@),
{
    let nodes: Vec<Node> = match parse_rule(Rule::Program, source) {
        Some(nodes) => nodes,
        None => return Err(reject_at(60, 0, "failed to parse program".to_owned())),
    };
    let ghost views = trees(nodes@);
    let mut p: ParsedProgram = ParsedProgram {
        model: WorldModel::new(),
        systems: Vec::new(),
        funcs: Vec::new(),
    };
    proof {
        assert(p@.systems =~= Seq::<SystemDeclView>::empty());
        assert(p@.funcs =~= Seq::<FuncView>::empty());
    }
    let mut k: usize = 0;
    while k < nodes.len()
        invariant
            k <= nodes.len(),
            views == trees(nodes@),
            parsed(Rule::Program, source@) == Some(views),
            sections_of(numbers@, source@, views, k as nat) == Ok::<ProgramView, FaultView>(p@),
        decreases nodes.len() - k,
    {
        proof {
            assert(views[k as int] == nodes@[k as int]@);
        }
        match add_section(numbers, source, &nodes[k], &mut p) {
            None => {},
            Some(f) => {
                proof {
                    lemma_sections_fail(numbers@, source@, views, (k + 1) as nat, f@);
                }
                return Err(f);
            },
        }
        k = k + 1;
    }
    Ok(p)
}

} // verus!
