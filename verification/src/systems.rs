//! Systems out of their declarations.

use crate::decl::{SystemDecl, SystemDeclView};
use crate::double::{integer_between, integer_within};
use crate::entity::MAX_STATE_SLOTS;
use crate::expr::{stmt_views, Expr, ExprView, LetStmt};
use crate::fault::{invalid, invalid_at, reject, reject_at, Fault, FaultView};
use crate::names::{assoc_get, NameMap, ViewMap};
use crate::numbers::{Numbers, NumbersView};
use crate::program::{System, SystemView};
use crate::rk4::Rk4System;
use crate::rules::only_view;
use crate::scope::{Scope, ScopeView};
use crate::stmts::{lets_of, to_let_stmts};
use crate::syntax::{expr_text, parse_expr_str};
use crate::text::{
    all_digits, cut_left, cut_right, dec_text, decimal, decimal_text, find, has_char, joined,
    numeric_slot, parse_decimal, part, slot_number, strip_left, strip_right,
};
use crate::update::{dyn_views, rule_views, RulesView, UpdateSystem};
use vstd::prelude::*;
use vstd::string::*;

verus! {

/// What the declarations are resolved against: the names of the program, the bodies
/// that attract each other, the sizes of the fields, and the dynamic entities.
pub struct Surroundings<'a> {
    pub scope: &'a Scope,
    pub nbody_bodies: &'a Vec<u128>,
    /// Width, height, depth and the bits of the cell size.
    pub field_info: &'a NameMap<(u32, u32, u32, u64)>,
    pub dynamic: &'a Vec<u128>,
}

/// The mathematical value of [`Surroundings`].
pub struct SurroundingsView {
    pub scope: ScopeView,
    pub nbody_bodies: Seq<u128>,
    pub field_info: Seq<(Seq<char>, (u32, u32, u32, u64))>,
    pub dynamic: Seq<u128>,
}

impl<'a> View for Surroundings<'a> {
    type V = SurroundingsView;

    open spec fn view(&self) -> SurroundingsView {
        SurroundingsView {
            scope: self.scope@,
            nbody_bodies: self.nbody_bodies@,
            field_info: self.field_info@,
            dynamic: self.dynamic@,
        }
    }
}

/// The fault of a required parameter that is not given.
pub open spec fn missing(d: SystemDeclView, key: Seq<char>) -> FaultView {
    invalid_at(
        48,
        d.byte_offset,
        "system '"@ + d.kind + "' is missing required parameter '"@ + key + "'"@,
    )
}

/// A required parameter, by its bits.
pub open spec fn required(d: SystemDeclView, key: Seq<char>) -> Result<u64, FaultView> {
    match assoc_get(d.params, key) {
        Some(v) => Ok(v),
        None => Err(missing(d, key)),
    }
}

/// An optional parameter, by its bits.
pub open spec fn optional(d: SystemDeclView, key: Seq<char>, default: u64) -> u64 {
    match assoc_get(d.params, key) {
        Some(v) => v,
        None => default,
    }
}

pub fn param(d: &SystemDecl, key: &str) -> (r: Result<u64, Fault>)
    ensures
        required(d@, key@) == (match r {
            Ok(v) => Ok(v),
            Err(f) => Err(f@),
        }),
{
    match d.params.get(key) {
        Some(v) => Ok(*v),
        None => {
            let a: String = joined("system '", &d.kind);
            let b: String = joined(&a, "' is missing required parameter '");
            let c: String = joined(&b, key);
            Err(reject_at(48, d.byte_offset, joined(&c, "'")))
        },
    }
}

pub fn param_or(d: &SystemDecl, key: &str, default: u64) -> (r: u64)
    ensures
        r == optional(d@, key@, default),
{
    match d.params.get(key) {
        Some(v) => *v,
        None => default,
    }
}

/// The step divisor of a schedule, where one is given.
pub open spec fn every_of(d: SystemDeclView) -> Result<Option<u64>, FaultView> {
    match assoc_get(d.params, "every"@) {
        None => Ok(None),
        Some(v) => match integer_within(v, 1, 1_000_000) {
            Some(n) => Ok(Some(n as u64)),
            None => Err(invalid_at(71, d.byte_offset, "every must be an integer ≥ 1"@)),
        },
    }
}

/// Reads the optional schedule of a system.
pub fn parse_every(d: &SystemDecl) -> (r: Result<Option<u64>, Fault>)
    ensures
        every_of(d@) == (match r {
            Ok(v) => Ok(v),
            Err(f) => Err(f@),
        }),
{
    match d.params.get("every") {
        None => Ok(None),
        Some(v) => match integer_between(*v, 1, 1_000_000) {
            Some(n) => Ok(Some(n)),
            None => Err(
                reject_at(71, d.byte_offset, "every must be an integer ≥ 1".to_owned()),
            ),
        },
    }
}

/// The number of substeps; one where none is given.
pub open spec fn substeps_of(d: SystemDeclView) -> Result<usize, FaultView> {
    match assoc_get(d.params, "substeps"@) {
        None => Ok(1),
        Some(v) => match integer_within(v, 1, 1000) {
            Some(n) => Ok(n as usize),
            None => Err(
                invalid_at(72, d.byte_offset, "substeps must be an integer in 1..=1000"@),
            ),
        },
    }
}

/// Reads the optional number of substeps.
pub fn parse_substeps(d: &SystemDecl) -> (r: Result<usize, Fault>)
    ensures
        substeps_of(d@) == (match r {
            Ok(v) => Ok(v),
            Err(f) => Err(f@),
        }),
{
    match d.params.get("substeps") {
        None => Ok(1),
        Some(v) => match integer_between(*v, 1, 1000) {
            Some(n) => Ok(n as usize),
            None => Err(
                reject_at(
                    72,
                    d.byte_offset,
                    "substeps must be an integer in 1..=1000".to_owned(),
                ),
            ),
        },
    }
}

/// The name of a slot of a pool, `pool#k`.
pub open spec fn slot_name(pool: Seq<char>, k: nat) -> Seq<char> {
    pool + "#"@ + dec_text(k)
}

/// Writes the name of a slot of a pool.
pub fn pool_slot_name(pool: &str, k: u64) -> (r: String)
    ensures
        r@ == slot_name(pool@, k as nat),
{
    let head: String = joined(pool, "#");
    joined(&head, &decimal_text(k))
}

/// The ids of the slots of a pool from the `k`-th on. There are no more of them than
/// names.
pub open spec fn slots_from(ids: Seq<(Seq<char>, u128)>, pool: Seq<char>, k: nat) -> Seq<u128>
    decreases ids.len() - k,
{
    if k >= ids.len() {
        Seq::empty()
    } else {
        match assoc_get(ids, slot_name(pool, k)) {
            None => Seq::empty(),
            Some(id) => seq![id] + slots_from(ids, pool, k + 1),
        }
    }
}

pub fn pool_ids(ids: &NameMap<u128>, pool: &str) -> (r: Vec<u128>)
    ensures
        r@ == slots_from(ids@, pool@, 0),
{
    let mut r: Vec<u128> = Vec::new();
    let mut k: usize = 0;
    proof {
        assert(r@ + slots_from(ids@, pool@, 0) =~= slots_from(ids@, pool@, 0));
    }
    while k < ids.entries.len()
        invariant
            k <= ids.entries.len(),
            ids@.len() == ids.entries.len(),
            r@ + slots_from(ids@, pool@, k as nat) == slots_from(ids@, pool@, 0),
        decreases ids.entries.len() - k,
    {
        let name: String = pool_slot_name(pool, k as u64);
        match ids.get(&name) {
            None => {
                proof {
                    assert(r@ + Seq::<u128>::empty() =~= r@);
                }
                return r;
            },
            Some(id) => {
                let ghost before = r@;
                r.push(*id);
                proof {
                    assert(before + (seq![*id] + slots_from(ids@, pool@, (k + 1) as nat)) =~= r@
                        + slots_from(ids@, pool@, (k + 1) as nat));
                }
            },
        }
        k = k + 1;
    }
    proof {
        assert(r@ + Seq::<u128>::empty() =~= r@);
    }
    r
}

/// The entities that `on = name` means: one entity, or every slot of a pool.
pub open spec fn targets(ids: Seq<(Seq<char>, u128)>, name: Seq<char>) -> Option<Seq<u128>> {
    match assoc_get(ids, name) {
        Some(id) => Some(seq![id]),
        None => if assoc_get(ids, slot_name(name, 0)) is Some {
            Some(slots_from(ids, name, 0))
        } else {
            None
        },
    }
}

/// Resolves an `on` target to the entities that it means.
pub fn resolve_on(ids: &NameMap<u128>, name: &str) -> (r: Option<Vec<u128>>)
    ensures
        only_view(r) == targets(ids@, name@),
{
    if let Some(id) = ids.get(name) {
        let mut one: Vec<u128> = Vec::new();
        one.push(*id);
        proof {
            assert(one@ =~= seq![*id]);
        }
        return Some(one);
    }
    if ids.has(&pool_slot_name(name, 0)) {
        Some(pool_ids(ids, name))
    } else {
        None
    }
}

/// The restriction of a rule to entities.
pub open spec fn only_of(env: SurroundingsView, d: SystemDeclView) -> Result<
    Option<Seq<u128>>,
    FaultView,
> {
    match assoc_get(d.string_params, "on"@) {
        None => Ok(None),
        Some(name) => match targets(env.scope.entity_map, name) {
            Some(ids) => Ok(Some(ids)),
            None => Err(invalid(62)),
        },
    }
}

pub fn read_only(env: &Surroundings, d: &SystemDecl) -> (r: Result<Option<Vec<u128>>, Fault>)
    ensures
        only_of(env@, d@) == (match r {
            Ok(o) => Ok(only_view(o)),
            Err(f) => Err(f@),
        }),
{
    match d.string_params.get("on") {
        None => Ok(None),
        Some(name) => match resolve_on(&env.scope.entity_map, name) {
            Some(ids) => Ok(Some(ids)),
            None => Err(reject(62)),
        },
    }
}

/// The condition of a rule, where one is given.
pub open spec fn when_of(n: NumbersView, d: SystemDeclView) -> Result<Option<ExprView>, FaultView> {
    match assoc_get(d.string_params, "when"@) {
        None => Ok(None),
        Some(text) => match expr_text(n, text) {
            Ok(e) => Ok(Some(e)),
            Err(f) => Err(f),
        },
    }
}

fn read_when(numbers: &Numbers, d: &SystemDecl) -> (r: Result<Option<Expr>, Fault>)
    ensures
        when_of(numbers@, d@) == (match r {
            Ok(w) => Ok(crate::expr::cond_view(w)),
            Err(f) => Err(f@),
        }),
{
    match d.string_params.get("when") {
        None => Ok(None),
        Some(text) => match parse_expr_str(numbers, text) {
            Ok(e) => Ok(Some(e)),
            Err(f) => Err(f),
        },
    }
}

/// Whether a left side is `s` and decimal digits.
pub open spec fn numeric_key(key: Seq<char>) -> bool {
    key.len() > 1 && key[0] == 's' && all_digits(key.drop_first())
}

fn digits_after_s(key: &str) -> (r: Option<String>)
    ensures
        numeric_key(key@) == (r is Some),
        r matches Some(d) ==> d@ == key@.drop_first(),
{
    let len: usize = key.unicode_len();
    if len > 1 && key.get_char(0) == 's' {
        let rest: String = part(key, 1, len);
        proof {
            assert(rest@ =~= key@.drop_first());
        }
        let chars: Vec<char> = crate::names::chars_of(&rest);
        let mut k: usize = 0;
        while k < chars.len()
            invariant
                k <= chars.len(),
                chars@ == rest@,
                rest@ == key@.drop_first(),
                forall|i: int| 0 <= i < k ==> crate::text::is_digit(#[trigger] rest@[i]),
            decreases chars.len() - k,
        {
            if !(chars[k] >= '0' && chars[k] <= '9') {
                proof {
                    assert(!crate::text::is_digit(rest@[k as int]));
                }
                return None;
            }
            k = k + 1;
        }
        Some(rest)
    } else {
        None
    }
}

/// Whether a left side names a slot by an expression, `s[index]`.
pub open spec fn dynamic_key(key: Seq<char>) -> bool {
    key.len() > 0 && key[0] == 's' && find(key, '[') < key.len()
}

pub fn is_dynamic_key(key: &str) -> (r: bool)
    ensures
        r == dynamic_key(key@),
{
    let len: usize = key.unicode_len();
    len > 0 && key.get_char(0) == 's' && has_char(key, '[')
}

/// The text of the index of a left side `s[index]`.
pub open spec fn index_text(key: Seq<char>) -> Seq<char> {
    cut_right(cut_left(cut_left(key, 's'), '['), ']')
}

/// The rules for numbered slots among the first `k` entries.
pub open spec fn numbered_rules(n: NumbersView, u: Seq<(Seq<char>, Seq<char>)>, k: nat) -> Result<
    Seq<(Seq<char>, ExprView)>,
    FaultView,
>
    decreases k,
{
    if k == 0 || k > u.len() {
        Ok(Seq::empty())
    } else {
        match numbered_rules(n, u, (k - 1) as nat) {
            Err(f) => Err(f),
            Ok(rules) => {
                let (key, text) = u[k - 1];
                if !numeric_key(key) {
                    Ok(rules)
                } else {
                    match decimal(key.drop_first()) {
                        None => Err(invalid(55)),
                        Some(i) => if i >= MAX_STATE_SLOTS {
                            Err(invalid(52))
                        } else {
                            match expr_text(n, text) {
                                Err(f) => Err(f),
                                Ok(e) => Ok(rules.push((key, e))),
                            }
                        },
                    }
                }
            },
        }
    }
}

/// Rules for slots, and rules for slots known at run time.
pub struct RuleSets {
    pub rules: Seq<(Seq<char>, ExprView)>,
    pub dyn_rules: Seq<(ExprView, ExprView)>,
}

/// The rules with those of the first `k` entries whose left side is no number.
pub open spec fn other_rules(
    n: NumbersView,
    u: Seq<(Seq<char>, Seq<char>)>,
    k: nat,
    rules: Seq<(Seq<char>, ExprView)>,
) -> Result<RuleSets, FaultView>
    decreases k,
{
    if k == 0 || k > u.len() {
        Ok(RuleSets { rules, dyn_rules: Seq::empty() })
    } else {
        match other_rules(n, u, (k - 1) as nat, rules) {
            Err(f) => Err(f),
            Ok(sets) => {
                let (key, text) = u[k - 1];
                if dynamic_key(key) {
                    match expr_text(n, index_text(key)) {
                        Err(f) => Err(f),
                        Ok(index) => match expr_text(n, text) {
                            Err(f) => Err(f),
                            Ok(e) => Ok(
                                RuleSets { dyn_rules: sets.dyn_rules.push((index, e)), ..sets },
                            ),
                        },
                    }
                } else if !numeric_key(key) {
                    match expr_text(n, text) {
                        Err(f) => Err(f),
                        Ok(e) => Ok(RuleSets { rules: sets.rules.push((key, e)), ..sets }),
                    }
                } else {
                    Ok(sets)
                }
            },
        }
    }
}

/// The rules of an update system: those for numbered slots first, then the others, in
/// the order of their left sides.
pub open spec fn update_rules(n: NumbersView, d: SystemDeclView) -> Result<RuleSets, FaultView> {
    match numbered_rules(n, d.update, d.update.len()) {
        Err(f) => Err(f),
        Ok(rules) => match other_rules(n, d.update, d.update.len(), rules) {
            Err(f) => Err(f),
            Ok(sets) => if sets.rules.len() == 0 && sets.dyn_rules.len() == 0 {
                Err(
                    invalid_at(
                        55,
                        d.byte_offset,
                        "update system has no slot rules (a pure-number RHS such as `s0 = 1.0` becomes a scalar parameter — write `s0 = 0.0 + 1.0` instead)"@,
                    ),
                )
            } else {
                Ok(sets)
            },
        },
    }
}

proof fn lemma_numbered_fail(n: NumbersView, u: Seq<(Seq<char>, Seq<char>)>, k: nat, f: FaultView)
    requires
        0 < k <= u.len(),
        numbered_rules(n, u, k) == Err::<Seq<(Seq<char>, ExprView)>, FaultView>(f),
    ensures
        numbered_rules(n, u, u.len()) == Err::<Seq<(Seq<char>, ExprView)>, FaultView>(f),
    decreases u.len() - k,
{
    if k < u.len() {
        lemma_numbered_fail(n, u, k + 1, f);
    }
}

proof fn lemma_other_fail(
    n: NumbersView,
    u: Seq<(Seq<char>, Seq<char>)>,
    k: nat,
    rules: Seq<(Seq<char>, ExprView)>,
    f: FaultView,
)
    requires
        0 < k <= u.len(),
        other_rules(n, u, k, rules) == Err::<RuleSets, FaultView>(f),
    ensures
        other_rules(n, u, u.len(), rules) == Err::<RuleSets, FaultView>(f),
    decreases u.len() - k,
{
    if k < u.len() {
        lemma_other_fail(n, u, k + 1, rules, f);
    }
}

fn push_rule(rules: &mut Vec<(String, Expr)>, key: String, e: Expr)
    ensures
        rule_views(final(rules)@) == rule_views(old(rules)@).push((key@, e@)),
{
    rules.push((key, e));
    proof {
        assert(rule_views(rules@) =~= rule_views(old(rules)@).push((key@, e@)));
    }
}

fn read_numbered(numbers: &Numbers, u: &ViewMap<String>) -> (r: Result<Vec<(String, Expr)>, Fault>)
    ensures
        numbered_rules(numbers@, u@, u@.len()) == (match r {
            Ok(rules) => Ok(rule_views(rules@)),
            Err(f) => Err(f@),
        }),
{
    let ghost entries = u@;
    let mut rules: Vec<(String, Expr)> = Vec::new();
    proof {
        assert(rule_views(rules@) =~= Seq::<(Seq<char>, ExprView)>::empty());
    }
    let mut k: usize = 0;
    while k < u.entries.len()
        invariant
            k <= u.entries.len(),
            entries == u@,
            entries.len() == u.entries.len(),
            numbered_rules(numbers@, entries, k as nat) == Ok::<
                Seq<(Seq<char>, ExprView)>,
                FaultView,
            >(rule_views(rules@)),
        decreases u.entries.len() - k,
    {
        let key: &String = &u.entries[k].0;
        let text: &String = &u.entries[k].1;
        proof {
            assert(entries[k as int] == (key@, text@));
        }
        if let Some(digits) = digits_after_s(key) {
            let fault: Option<Fault> = match parse_decimal(&digits) {
                None => Some(reject(55)),
                Some(i) => {
                    if i >= MAX_STATE_SLOTS {
                        Some(reject(52))
                    } else {
                        match parse_expr_str(numbers, text) {
                            Ok(e) => {
                                push_rule(&mut rules, key.clone(), e);
                                None
                            },
                            Err(f) => Some(f),
                        }
                    }
                },
            };
            if let Some(f) = fault {
                proof {
                    lemma_numbered_fail(numbers@, entries, (k + 1) as nat, f@);
                }
                return Err(f);
            }
        }
        k = k + 1;
    }
    Ok(rules)
}

fn read_index_rule(numbers: &Numbers, key: &str, text: &str) -> (r: Result<(Expr, Expr), Fault>)
    ensures
        match r {
            Ok((i, e)) => expr_text(numbers@, index_text(key@)) == Ok::<ExprView, FaultView>(i@)
                && expr_text(numbers@, text@) == Ok::<ExprView, FaultView>(e@),
            Err(f) => expr_text(numbers@, index_text(key@)) == Err::<ExprView, FaultView>(f@) || (
            expr_text(numbers@, index_text(key@)) is Ok && expr_text(numbers@, text@) == Err::<
                ExprView,
                FaultView,
            >(f@)),
        },
{
    let inner: String = strip_right(&strip_left(&strip_left(key, 's'), '['), ']');
    match parse_expr_str(numbers, &inner) {
        Err(f) => Err(f),
        Ok(i) => match parse_expr_str(numbers, text) {
            Err(f) => Err(f),
            Ok(e) => Ok((i, e)),
        },
    }
}

fn read_others(numbers: &Numbers, u: &ViewMap<String>, first: Vec<(String, Expr)>) -> (r: Result<
    (Vec<(String, Expr)>, Vec<(Expr, Expr)>),
    Fault,
>)
    ensures
        other_rules(numbers@, u@, u@.len(), rule_views(first@)) == (match r {
            Ok((rules, dyns)) => Ok(
                RuleSets { rules: rule_views(rules@), dyn_rules: dyn_views(dyns@) },
            ),
            Err(f) => Err(f@),
        }),
{
    let ghost entries = u@;
    let ghost start = rule_views(first@);
    let mut rules: Vec<(String, Expr)> = first;
    let mut dyns: Vec<(Expr, Expr)> = Vec::new();
    proof {
        assert(dyn_views(dyns@) =~= Seq::<(ExprView, ExprView)>::empty());
    }
    let mut k: usize = 0;
    while k < u.entries.len()
        invariant
            k <= u.entries.len(),
            entries == u@,
            start == rule_views(first@),
            entries.len() == u.entries.len(),
            other_rules(numbers@, entries, k as nat, start) == Ok::<RuleSets, FaultView>(
                RuleSets { rules: rule_views(rules@), dyn_rules: dyn_views(dyns@) },
            ),
        decreases u.entries.len() - k,
    {
        let key: &String = &u.entries[k].0;
        let text: &String = &u.entries[k].1;
        proof {
            assert(entries[k as int] == (key@, text@));
        }
        if is_dynamic_key(key) {
            match read_index_rule(numbers, key, text) {
                Ok((i, e)) => {
                    let ghost before = dyn_views(dyns@);
                    dyns.push((i, e));
                    proof {
                        assert(dyn_views(dyns@) =~= before.push((i@, e@)));
                    }
                },
                Err(f) => {
                    proof {
                        lemma_other_fail(numbers@, entries, (k + 1) as nat, start, f@);
                    }
                    return Err(f);
                },
            }
        } else if digits_after_s(key).is_none() {
            match parse_expr_str(numbers, text) {
                Ok(e) => push_rule(&mut rules, key.clone(), e),
                Err(f) => {
                    proof {
                        lemma_other_fail(numbers@, entries, (k + 1) as nat, start, f@);
                    }
                    return Err(f);
                },
            }
        }
        k = k + 1;
    }
    Ok((rules, dyns))
}

fn read_update_rules(numbers: &Numbers, d: &SystemDecl) -> (r: Result<
    (Vec<(String, Expr)>, Vec<(Expr, Expr)>),
    Fault,
>)
    ensures
        update_rules(numbers@, d@) == (match r {
            Ok((rules, dyns)) => Ok(
                RuleSets { rules: rule_views(rules@), dyn_rules: dyn_views(dyns@) },
            ),
            Err(f) => Err(f@),
        }),
{
    let first: Vec<(String, Expr)> = match read_numbered(numbers, &d.update) {
        Ok(rules) => rules,
        Err(f) => return Err(f),
    };
    let (rules, dyns): (Vec<(String, Expr)>, Vec<(Expr, Expr)>) = match read_others(
        numbers,
        &d.update,
        first,
    ) {
        Ok(sets) => sets,
        Err(f) => return Err(f),
    };
    proof {
        assert(rule_views(rules@).len() == rules@.len());
        assert(dyn_views(dyns@).len() == dyns@.len());
    }
    if rules.len() == 0 && dyns.len() == 0 {
        return Err(
            reject_at(
                55,
                d.byte_offset,
                "update system has no slot rules (a pure-number RHS such as `s0 = 1.0` becomes a scalar parameter — write `s0 = 0.0 + 1.0` instead)".to_owned(),
            ),
        );
    }
    Ok((rules, dyns))
}

/// The scope of a system: that of the program, in the namespace of the system.
pub open spec fn scope_of(env: SurroundingsView, d: SystemDeclView) -> ScopeView {
    ScopeView { namespace: d.namespace, ..env.scope }
}

/// What rule systems share once their rules are known: statements, restriction,
/// schedule, condition, step length and substeps, read in that order.
pub open spec fn rule_system(
    n: NumbersView,
    env: SurroundingsView,
    d: SystemDeclView,
    sets: RuleSets,
) -> Result<RulesView, FaultView> {
    match lets_of(n, d.update_stmts, d.update_stmts.len()) {
        Err(f) => Err(f),
        Ok(lets) => match only_of(env, d) {
            Err(f) => Err(f),
            Ok(only) => match every_of(d) {
                Err(f) => Err(f),
                Ok(every) => match when_of(n, d) {
                    Err(f) => Err(f),
                    Ok(when) => match required(d, "dt"@) {
                        Err(f) => Err(f),
                        Ok(dt) => match substeps_of(d) {
                            Err(f) => Err(f),
                            Ok(substeps) => Ok(
                                RulesView {
                                    rules: sets.rules,
                                    dyn_rules: sets.dyn_rules,
                                    lets,
                                    slots_hint: 0,
                                    dt,
                                    every,
                                    substeps,
                                    only,
                                    when,
                                    scope: scope_of(env, d),
                                },
                            ),
                        },
                    },
                },
            },
        },
    }
}

/// The view of a system result.
pub open spec fn system_result(r: Result<System, Fault>) -> Result<SystemView, FaultView> {
    match r {
        Ok(s) => Ok(s@),
        Err(f) => Err(f@),
    }
}

struct RuleParts {
    lets: Vec<LetStmt>,
    only: Option<Vec<u128>>,
    every: Option<u64>,
    when: Option<Expr>,
    dt: u64,
    substeps: usize,
    scope: Scope,
}

impl RuleParts {
    spec fn with_rules(self, sets: RuleSets) -> RulesView {
        RulesView {
            rules: sets.rules,
            dyn_rules: sets.dyn_rules,
            lets: stmt_views(self.lets@),
            slots_hint: 0,
            dt: self.dt,
            every: self.every,
            substeps: self.substeps,
            only: only_view(self.only),
            when: crate::expr::cond_view(self.when),
            scope: self.scope@,
        }
    }
}

fn read_rule_parts(
    numbers: &Numbers,
    env: &Surroundings,
    d: &SystemDecl,
    Ghost(sets): Ghost<RuleSets>,
) -> (r: Result<RuleParts, Fault>)
    ensures
        rule_system(numbers@, env@, d@, sets) == (match r {
            Ok(p) => Ok(p.with_rules(sets)),
            Err(f) => Err(f@),
        }),
{
    let lets: Vec<LetStmt> = match to_let_stmts(numbers, &d.update_stmts) {
        Ok(l) => l,
        Err(f) => return Err(f),
    };
    let only: Option<Vec<u128>> = match read_only(env, d) {
        Ok(o) => o,
        Err(f) => return Err(f),
    };
    let every: Option<u64> = match parse_every(d) {
        Ok(e) => e,
        Err(f) => return Err(f),
    };
    let when: Option<Expr> = match read_when(numbers, d) {
        Ok(w) => w,
        Err(f) => return Err(f),
    };
    let dt: u64 = match param(d, "dt") {
        Ok(v) => v,
        Err(f) => return Err(f),
    };
    let substeps: usize = match parse_substeps(d) {
        Ok(v) => v,
        Err(f) => return Err(f),
    };
    Ok(RuleParts { lets, only, every, when, dt, substeps, scope: env.scope.within(&d.namespace) })
}

/// The update system of a declaration.
pub open spec fn update_for(n: NumbersView, env: SurroundingsView, d: SystemDeclView) -> Result<
    SystemView,
    FaultView,
> {
    match update_rules(n, d) {
        Err(f) => Err(f),
        Ok(sets) => match rule_system(n, env, d, sets) {
            Err(f) => Err(f),
            Ok(u) => Ok(SystemView::Update(u)),
        },
    }
}

pub fn build_update(numbers: &Numbers, env: &Surroundings, d: &SystemDecl) -> (r: Result<
    System,
    Fault,
>)
    ensures
        system_result(r) == update_for(numbers@, env@, d@),
{
    let (rules, dyn_rules): (Vec<(String, Expr)>, Vec<(Expr, Expr)>) = match read_update_rules(
        numbers,
        d,
    ) {
        Ok(sets) => sets,
        Err(f) => return Err(f),
    };
    let ghost sets = RuleSets { rules: rule_views(rules@), dyn_rules: dyn_views(dyn_rules@) };
    match read_rule_parts(numbers, env, d, Ghost(sets)) {
        Err(f) => Err(f),
        Ok(p) => Ok(
            System::Update(
                UpdateSystem {
                    rules,
                    dyn_rules,
                    lets: p.lets,
                    slots_hint: 0,
                    dt: p.dt,
                    every: p.every,
                    substeps: p.substeps,
                    only: p.only,
                    when: p.when,
                    scope: p.scope,
                },
            ),
        ),
    }
}

/// The rules of a Runge-Kutta system among the first `k` entries. Its stages need
/// slots that are known in advance.
pub open spec fn stage_rules(n: NumbersView, d: SystemDeclView, k: nat) -> Result<
    Seq<(Seq<char>, ExprView)>,
    FaultView,
>
    decreases k,
{
    if k == 0 || k > d.update.len() {
        Ok(Seq::empty())
    } else {
        match stage_rules(n, d, (k - 1) as nat) {
            Err(f) => Err(f),
            Ok(rules) => {
                let (key, text) = d.update[k - 1];
                let slot = slot_number(key);
                if slot is Some && slot->0 >= MAX_STATE_SLOTS {
                    Err(invalid(52))
                } else if slot is None && dynamic_key(key) {
                    Err(
                        invalid_at(
                            73,
                            d.byte_offset,
                            "dynamic slot LHS is update-only (rk4 stages need compile-time slots)"@,
                        ),
                    )
                } else {
                    match expr_text(n, text) {
                        Err(f) => Err(f),
                        Ok(e) => Ok(rules.push((key, e))),
                    }
                }
            },
        }
    }
}

/// The Runge-Kutta system of a declaration.
pub open spec fn rk4_for(n: NumbersView, env: SurroundingsView, d: SystemDeclView) -> Result<
    SystemView,
    FaultView,
> {
    match stage_rules(n, d, d.update.len()) {
        Err(f) => Err(f),
        Ok(rules) => if rules.len() == 0 {
            Err(
                invalid_at(
                    55,
                    d.byte_offset,
                    "rk4 system has no slot rules (a pure-number RHS such as `s0 = 1.0` becomes a scalar parameter — write `s0 = 0.0 + 1.0` instead)"@,
                ),
            )
        } else {
            match rule_system(n, env, d, RuleSets { rules, dyn_rules: Seq::empty() }) {
                Err(f) => Err(f),
                Ok(u) => Ok(SystemView::Rk4(u)),
            }
        },
    }
}

proof fn lemma_stages_fail(n: NumbersView, d: SystemDeclView, k: nat, f: FaultView)
    requires
        0 < k <= d.update.len(),
        stage_rules(n, d, k) == Err::<Seq<(Seq<char>, ExprView)>, FaultView>(f),
    ensures
        stage_rules(n, d, d.update.len()) == Err::<Seq<(Seq<char>, ExprView)>, FaultView>(f),
    decreases d.update.len() - k,
{
    if k < d.update.len() {
        lemma_stages_fail(n, d, k + 1, f);
    }
}

fn read_stage_rule(numbers: &Numbers, d: &SystemDecl, key: &str, text: &str) -> (r: Result<
    Expr,
    Fault,
>)
    ensures
        (match r {
            Ok(e) => Ok(e@),
            Err(f) => Err(f@),
        }) == (if slot_number(key@) is Some && slot_number(key@)->0 >= MAX_STATE_SLOTS {
            Err(invalid(52))
        } else if slot_number(key@) is None && dynamic_key(key@) {
            Err(
                invalid_at(
                    73,
                    d.byte_offset,
                    "dynamic slot LHS is update-only (rk4 stages need compile-time slots)"@,
                ),
            )
        } else {
            expr_text(numbers@, text@)
        }),
{
    match numeric_slot(key) {
        Some(i) => {
            if i >= MAX_STATE_SLOTS {
                return Err(reject(52));
            }
        },
        None => {
            if is_dynamic_key(key) {
                return Err(
                    reject_at(
                        73,
                        d.byte_offset,
                        "dynamic slot LHS is update-only (rk4 stages need compile-time slots)".to_owned(),
                    ),
                );
            }
        },
    }
    parse_expr_str(numbers, text)
}

fn read_stage_rules(numbers: &Numbers, d: &SystemDecl) -> (r: Result<Vec<(String, Expr)>, Fault>)
    ensures
        stage_rules(numbers@, d@, d@.update.len()) == (match r {
            Ok(rules) => Ok(rule_views(rules@)),
            Err(f) => Err(f@),
        }),
{
    let ghost dv = d@;
    let mut rules: Vec<(String, Expr)> = Vec::new();
    proof {
        assert(rule_views(rules@) =~= Seq::<(Seq<char>, ExprView)>::empty());
    }
    let mut k: usize = 0;
    while k < d.update.entries.len()
        invariant
            k <= d.update.entries.len(),
            dv == d@,
            dv.update.len() == d.update.entries.len(),
            stage_rules(numbers@, dv, k as nat) == Ok::<Seq<(Seq<char>, ExprView)>, FaultView>(
                rule_views(rules@),
            ),
        decreases d.update.entries.len() - k,
    {
        let key: &String = &d.update.entries[k].0;
        let text: &String = &d.update.entries[k].1;
        proof {
            assert(dv.update[k as int] == (key@, text@));
        }
        match read_stage_rule(numbers, d, key, text) {
            Ok(e) => push_rule(&mut rules, key.clone(), e),
            Err(f) => {
                proof {
                    lemma_stages_fail(numbers@, dv, (k + 1) as nat, f@);
                }
                return Err(f);
            },
        }
        k = k + 1;
    }
    Ok(rules)
}

pub fn build_rk4(numbers: &Numbers, env: &Surroundings, d: &SystemDecl) -> (r: Result<System, Fault>)
    ensures
        system_result(r) == rk4_for(numbers@, env@, d@),
{
    let rules: Vec<(String, Expr)> = match read_stage_rules(numbers, d) {
        Ok(rules) => rules,
        Err(f) => return Err(f),
    };
    proof {
        assert(rule_views(rules@).len() == rules@.len());
    }
    if rules.len() == 0 {
        return Err(
            reject_at(
                55,
                d.byte_offset,
                "rk4 system has no slot rules (a pure-number RHS such as `s0 = 1.0` becomes a scalar parameter — write `s0 = 0.0 + 1.0` instead)".to_owned(),
            ),
        );
    }
    let ghost sets = RuleSets { rules: rule_views(rules@), dyn_rules: Seq::empty() };
    match read_rule_parts(numbers, env, d, Ghost(sets)) {
        Err(f) => Err(f),
        Ok(p) => Ok(
            System::Rk4(
                Rk4System {
                    rules,
                    lets: p.lets,
                    slots_hint: 0,
                    dt: p.dt,
                    every: p.every,
                    when: p.when,
                    substeps: p.substeps,
                    only: p.only,
                    scope: p.scope,
                },
            ),
        ),
    }
}

} // verus!
