//! The `update` system: per-slot rules `slot += dt * expr`, explicit Euler.

use crate::block::{lower_let_block, lower_stmts};
use crate::eir::{
    code, cr, slot_offset, state_slot, Component, ComponentView, Instruction, InstructionView,
    Opcode, Real, ValueType, ZERO,
};
use crate::emit::{
    at, binary, const_of, const_reg, effect_of, emit, emit_effect, emit_state, fresh_reg, known,
    known_of, op_of, result_of, resumed, select, truthy, truthy_of, write_of, write_reg, Emit,
};
use crate::expr::{cond_view, stmt_views, Expr, ExprView, LetStmt, LetStmtView, PropKind};
use crate::lower::{lower_expr, lower_expr_spec};
use crate::names::{assoc_get, NameMap};
use crate::refs::{
    collect_let_refs, collect_refs, expr_slot_span, later, later_of, let_stmts_slot_span, no_refs,
    refs_of, refs_stmts, span, span_stmts, Refs, RefsView,
};
use crate::rules::{
    applies, branch_view, close, closed, emit_schedule, end, ended, key_reads, only_view, read_keys,
    read_slots, rule_applies, schedule_of, slot_reads, EirSystem,
};
use crate::scope::{
    slot_reg, CtxView, Layout, LowerCtx, LowerParts, PartsView, RegMap, Scope, ScopeView,
};
use crate::text::{numeric_slot, slot_number};
use vstd::prelude::*;

verus! {

/// A dynamical system over state slots, given by one rule per slot:
/// `state[i] += dt * expr(state)`. Every slot is read before any is written. The
/// rules run `substeps` times per step with `dt / substeps` each.
pub struct UpdateSystem {
    /// Slot rules; the left side is `sN` or a named slot of the entity.
    pub rules: Vec<(String, Expr)>,
    /// Rules `s[index] = expr`, the slot known at run time only.
    pub dyn_rules: Vec<(Expr, Expr)>,
    /// Statements that run before the rules.
    pub lets: Vec<LetStmt>,
    /// The least number of slots to read.
    pub slots_hint: usize,
    /// Bits of the step length.
    pub dt: u64,
    /// Run only on the steps divisible by this.
    pub every: Option<u64>,
    pub substeps: usize,
    /// The entities that the rules apply to; all without a list.
    pub only: Option<Vec<u128>>,
    /// A condition on every write.
    pub when: Option<Expr>,
    pub scope: Scope,
}

/// The mathematical value of a rule system.
pub struct RulesView {
    pub rules: Seq<(Seq<char>, ExprView)>,
    pub dyn_rules: Seq<(ExprView, ExprView)>,
    pub lets: Seq<LetStmtView>,
    pub slots_hint: usize,
    pub dt: u64,
    pub every: Option<u64>,
    pub substeps: usize,
    pub only: Option<Seq<u128>>,
    pub when: Option<ExprView>,
    pub scope: ScopeView,
}

/// The values of slot rules.
pub open spec fn rule_views(s: Seq<(String, Expr)>) -> Seq<(Seq<char>, ExprView)> {
    s.map_values(|r: (String, Expr)| (r.0@, r.1@))
}

/// The values of rules with a computed slot.
pub open spec fn dyn_views(s: Seq<(Expr, Expr)>) -> Seq<(ExprView, ExprView)> {
    s.map_values(|r: (Expr, Expr)| (r.0@, r.1@))
}

impl View for UpdateSystem {
    type V = RulesView;

    open spec fn view(&self) -> RulesView {
        RulesView {
            rules: rule_views(self.rules@),
            dyn_rules: dyn_views(self.dyn_rules@),
            lets: stmt_views(self.lets@),
            slots_hint: self.slots_hint,
            dt: self.dt,
            every: self.every,
            substeps: self.substeps,
            only: only_view(self.only),
            when: cond_view(self.when),
            scope: self.scope@,
        }
    }
}

/// The slot that the left side of a rule names in an entity's layout.
pub open spec fn rule_slot(lhs: Seq<char>, sn: Layout) -> Option<usize> {
    match slot_number(lhs) {
        Some(i) => Some(i),
        None => assoc_get(sn, lhs),
    }
}

/// Finds the slot that the left side of a rule names.
pub fn rule_slot_of(lhs: &String, sn: &NameMap<usize>) -> (r: Option<usize>)
    ensures
        r == rule_slot(lhs@, sn@),
{
    match numeric_slot(lhs) {
        Some(i) => Some(i),
        None => match sn.get(lhs) {
            Some(i) => Some(*i),
            None => None,
        },
    }
}

/// Of the first `n` rules those that name a slot: the slot and the rule's index.
pub open spec fn resolved(rules: Seq<(Seq<char>, ExprView)>, n: nat, sn: Layout) -> Seq<
    (usize, nat),
>
    decreases n,
{
    if n == 0 || n > rules.len() {
        Seq::empty()
    } else {
        let before = resolved(rules, (n - 1) as nat, sn);
        match rule_slot(rules[n - 1].0, sn) {
            Some(slot) => before.push((slot, (n - 1) as nat)),
            None => before,
        }
    }
}

/// The highest slot that the first `n` rules write.
pub open spec fn span_lhs(rules: Seq<(Seq<char>, ExprView)>, n: nat, sn: Layout) -> Option<usize>
    decreases n,
{
    if n == 0 || n > rules.len() {
        None
    } else {
        later(span_lhs(rules, (n - 1) as nat, sn), rule_slot(rules[n - 1].0, sn))
    }
}

/// The highest own slot that the right sides of the first `n` rules read.
pub open spec fn span_rhs(rules: Seq<(Seq<char>, ExprView)>, n: nat, sn: Layout) -> Option<usize>
    decreases n,
{
    if n == 0 || n > rules.len() {
        None
    } else {
        later(span_rhs(rules, (n - 1) as nat, sn), span(rules[n - 1].1, sn))
    }
}

/// The highest own slot that the indices of the first `n` computed-slot rules read.
pub open spec fn span_dyn(rules: Seq<(ExprView, ExprView)>, n: nat, sn: Layout) -> Option<usize>
    decreases n,
{
    if n == 0 || n > rules.len() {
        None
    } else {
        later(
            span_dyn(rules, (n - 1) as nat, sn),
            later(span(rules[n - 1].0, sn), span(rules[n - 1].1, sn)),
        )
    }
}

/// The highest own slot that an optional condition reads.
pub open spec fn span_cond(c: Option<ExprView>, sn: Layout) -> Option<usize> {
    match c {
        Some(e) => span(e, sn),
        None => None,
    }
}

/// The number of slots up to and with a slot.
pub open spec fn past(slot: Option<usize>) -> usize {
    match slot {
        None => 0,
        Some(i) => if i == usize::MAX {
            usize::MAX
        } else {
            (i + 1) as usize
        },
    }
}

/// Computes [`past`].
pub fn past_of(slot: Option<usize>) -> (r: usize)
    ensures
        r == past(slot),
{
    match slot {
        None => 0,
        Some(i) => if i == usize::MAX {
            usize::MAX
        } else {
            i + 1
        },
    }
}

/// The greater of two counts.
pub open spec fn at_least(a: usize, b: usize) -> usize {
    if a >= b {
        a
    } else {
        b
    }
}

/// Computes [`at_least`].
pub fn larger(a: usize, b: usize) -> (r: usize)
    ensures
        r == at_least(a, b),
{
    if a >= b {
        a
    } else {
        b
    }
}

/// The number of own slots that an `update` system reads: all that its rules write
/// or read, that its statements, its condition and its computed indices read, and
/// at least the hint.
pub open spec fn update_slots(u: RulesView, sn: Layout) -> usize {
    at_least(
        u.slots_hint,
        past(
            later(
                later(
                    later(span_lhs(u.rules, u.rules.len(), sn), span_stmts(u.lets, u.lets.len(), sn)),
                    later(span_cond(u.when, sn), span_dyn(u.dyn_rules, u.dyn_rules.len(), sn)),
                ),
                span_rhs(u.rules, u.rules.len(), sn),
            ),
        ),
    )
}

/// `acc` with what the first `n` rules read of other entities.
pub open spec fn refs_rules(
    rules: Seq<(Seq<char>, ExprView)>,
    n: nat,
    scope: ScopeView,
    acc: RefsView,
) -> RefsView
    decreases n,
{
    if n == 0 || n > rules.len() {
        acc
    } else {
        refs_of(
            rules[n - 1].1,
            scope.entity_map,
            scope.state_names_by_id,
            refs_rules(rules, (n - 1) as nat, scope, acc),
        )
    }
}

/// `acc` with what the first `n` computed-slot rules read of other entities.
pub open spec fn refs_dyn(
    rules: Seq<(ExprView, ExprView)>,
    n: nat,
    scope: ScopeView,
    acc: RefsView,
) -> RefsView
    decreases n,
{
    if n == 0 || n > rules.len() {
        acc
    } else {
        let acc = refs_dyn(rules, (n - 1) as nat, scope, acc);
        let acc = refs_of(rules[n - 1].0, scope.entity_map, scope.state_names_by_id, acc);
        refs_of(rules[n - 1].1, scope.entity_map, scope.state_names_by_id, acc)
    }
}

/// What a rule system reads of other entities: in its rules, its condition and its
/// statements.
pub open spec fn rule_refs(u: RulesView) -> RefsView {
    let scope = u.scope;
    let acc = refs_rules(u.rules, u.rules.len(), scope, no_refs());
    let acc = refs_dyn(u.dyn_rules, u.dyn_rules.len(), scope, acc);
    let acc = match u.when {
        Some(w) => refs_of(w, scope.entity_map, scope.state_names_by_id, acc),
        None => acc,
    };
    refs_stmts(u.lets, u.lets.len(), scope.entity_map, scope.state_names_by_id, acc)
}

/// Resolves the left sides of rules; also the highest slot that they name.
pub fn resolve_rules(rules: &Vec<(String, Expr)>, sn: &NameMap<usize>) -> (r: (
    Vec<(usize, usize)>,
    Option<usize>,
))
    ensures
        r.0@.map_values(|e: (usize, usize)| (e.0, e.1 as nat)) == resolved(
            rule_views(rules@),
            rules@.len(),
            sn@,
        ),
        r.1 == span_lhs(rule_views(rules@), rules@.len(), sn@),
        forall|i: int| 0 <= i < r.0@.len() ==> (#[trigger] r.0@[i]).1 < rules@.len(),
{
    let ghost views = rule_views(rules@);
    let mut found: Vec<(usize, usize)> = Vec::new();
    let mut top: Option<usize> = None;
    let mut i: usize = 0;
    proof {
        assert(found@.map_values(|e: (usize, usize)| (e.0, e.1 as nat)) =~= Seq::<
            (usize, nat),
        >::empty());
    }
    while i < rules.len()
        invariant
            i <= rules.len(),
            views == rule_views(rules@),
            found@.map_values(|e: (usize, usize)| (e.0, e.1 as nat)) == resolved(
                views,
                i as nat,
                sn@,
            ),
            top == span_lhs(views, i as nat, sn@),
            forall|k: int| 0 <= k < found@.len() ==> (#[trigger] found@[k]).1 < rules@.len(),
        decreases rules.len() - i,
    {
        proof {
            assert(views[i as int].0 == rules@[i as int].0@);
        }
        let slot: Option<usize> = rule_slot_of(&rules[i].0, sn);
        let ghost before = found@.map_values(|e: (usize, usize)| (e.0, e.1 as nat));
        if let Some(s) = slot {
            found.push((s, i));
            proof {
                assert(found@.map_values(|e: (usize, usize)| (e.0, e.1 as nat)) =~= before.push(
                    (s, i as nat),
                ));
            }
        }
        top = later_of(top, slot);
        i = i + 1;
    }
    (found, top)
}

/// Finds the highest own slot that the right sides of rules read.
pub fn rhs_span(rules: &Vec<(String, Expr)>, sn: &NameMap<usize>) -> (r: Option<usize>)
    ensures
        r == span_rhs(rule_views(rules@), rules@.len(), sn@),
{
    let ghost views = rule_views(rules@);
    let mut top: Option<usize> = None;
    let mut i: usize = 0;
    while i < rules.len()
        invariant
            i <= rules.len(),
            views == rule_views(rules@),
            top == span_rhs(views, i as nat, sn@),
        decreases rules.len() - i,
    {
        proof {
            assert(views[i as int].1 == rules@[i as int].1@);
        }
        top = later_of(top, expr_slot_span(&rules[i].1, sn));
        i = i + 1;
    }
    top
}

fn dyn_span(rules: &Vec<(Expr, Expr)>, sn: &NameMap<usize>) -> (r: Option<usize>)
    ensures
        r == span_dyn(dyn_views(rules@), rules@.len(), sn@),
{
    let ghost views = dyn_views(rules@);
    let mut top: Option<usize> = None;
    let mut i: usize = 0;
    while i < rules.len()
        invariant
            i <= rules.len(),
            views == dyn_views(rules@),
            top == span_dyn(views, i as nat, sn@),
        decreases rules.len() - i,
    {
        proof {
            assert(views[i as int] == (rules@[i as int].0@, rules@[i as int].1@));
        }
        top = later_of(
            top,
            later_of(expr_slot_span(&rules[i].0, sn), expr_slot_span(&rules[i].1, sn)),
        );
        i = i + 1;
    }
    top
}

/// Finds the highest own slot that an optional condition reads.
pub fn cond_span(cond: &Option<Expr>, sn: &NameMap<usize>) -> (r: Option<usize>)
    ensures
        r == span_cond(cond_view(*cond), sn@),
{
    match cond {
        Some(e) => expr_slot_span(e, sn),
        None => None,
    }
}

/// Collects what a rule system reads of other entities.
pub fn collect_rule_refs(
    rules: &Vec<(String, Expr)>,
    dyn_rules: &Vec<(Expr, Expr)>,
    when: &Option<Expr>,
    lets: &Vec<LetStmt>,
    scope: &Scope,
) -> (r: Refs)
    ensures
        forall|u: RulesView|
            u.rules == rule_views(rules@) && u.dyn_rules == dyn_views(dyn_rules@) && u.when
                == cond_view(*when) && u.lets == stmt_views(lets@) && u.scope == scope@ ==> r@
                == #[trigger] rule_refs(u),
{
    let ghost views = rule_views(rules@);
    let mut acc = Refs::new();
    let mut i: usize = 0;
    while i < rules.len()
        invariant
            i <= rules.len(),
            views == rule_views(rules@),
            acc@ == refs_rules(views, i as nat, scope@, no_refs()),
        decreases rules.len() - i,
    {
        proof {
            assert(views[i as int].1 == rules@[i as int].1@);
        }
        collect_refs(&rules[i].1, &scope.entity_map, &scope.state_names_by_id, &mut acc);
        i = i + 1;
    }
    let ghost named = acc@;
    let ghost pairs = dyn_views(dyn_rules@);
    let mut k: usize = 0;
    while k < dyn_rules.len()
        invariant
            k <= dyn_rules.len(),
            pairs == dyn_views(dyn_rules@),
            acc@ == refs_dyn(pairs, k as nat, scope@, named),
        decreases dyn_rules.len() - k,
    {
        proof {
            assert(pairs[k as int] == (dyn_rules@[k as int].0@, dyn_rules@[k as int].1@));
        }
        collect_refs(&dyn_rules[k].0, &scope.entity_map, &scope.state_names_by_id, &mut acc);
        collect_refs(&dyn_rules[k].1, &scope.entity_map, &scope.state_names_by_id, &mut acc);
        k = k + 1;
    }
    if let Some(w) = when {
        collect_refs(w, &scope.entity_map, &scope.state_names_by_id, &mut acc);
    }
    collect_let_refs(lets, &scope.entity_map, &scope.state_names_by_id, &mut acc);
    acc
}

/// The new value of a slot where the condition holds, else the one it has.
pub open spec fn chosen(s: Emit, new: u32, cur: u32, flag: Option<u32>) -> (Emit, u32) {
    match flag {
        Some(g) => op_of(s, Opcode::Select, seq![g, new, cur]),
        None => (s, new),
    }
}

/// Computes [`chosen`].
pub fn choose_value(
    new: u32,
    cur: u32,
    flag: Option<u32>,
    next_id: &mut u32,
    out: &mut Vec<Instruction>,
) -> (r: u32)
    ensures
        (emit_state(*final(next_id), final(out)@), r) == chosen(
            emit_state(*old(next_id), old(out)@),
            new,
            cur,
            flag,
        ),
{
    match flag {
        Some(g) => select(g, new, cur, next_id, out),
        None => new,
    }
}

/// The flag of an optional condition.
pub open spec fn flag_of(when: Option<ExprView>, ctx: CtxView, s: Emit) -> (Emit, Option<u32>) {
    match when {
        Some(w) => {
            let (s, r) = lower_expr_spec(w, ctx, s);
            let (s, t) = truthy_of(s, r);
            (s, Some(t))
        },
        None => (s, None),
    }
}

/// Lowers an optional condition to its flag.
pub fn lower_flag(
    when: &Option<Expr>,
    ctx: &LowerCtx<'_>,
    next_id: &mut u32,
    out: &mut Vec<Instruction>,
) -> (r: Option<u32>)
    ensures
        (emit_state(*final(next_id), final(out)@), r) == flag_of(
            cond_view(*when),
            ctx@,
            emit_state(*old(next_id), old(out)@),
        ),
{
    match when {
        Some(w) => {
            let r: u32 = lower_expr(w, ctx, next_id, out);
            Some(truthy(r, next_id, out))
        },
        None => None,
    }
}

/// The change of a rule in one substep: its value times the substep length.
pub open spec fn change_of(
    u: RulesView,
    expr: ExprView,
    ctx: CtxView,
    s: Emit,
) -> (Emit, u32) {
    let (s, value) = lower_expr_spec(expr, ctx, s);
    let (s, dt) = const_of(s, Real::Step { dt: u.dt, substeps: u.substeps as u64 });
    op_of(s, Opcode::Mul, seq![value, dt])
}

/// The new values of the slots of the first `n` resolved rules: `state[i] + change` where
/// the condition holds, else `state[i]`.
pub open spec fn rule_values(
    u: RulesView,
    found: Seq<(usize, nat)>,
    n: nat,
    ctx: CtxView,
    flag: Option<u32>,
    s: Emit,
) -> (Emit, Seq<u32>)
    decreases n,
{
    if n == 0 || n > found.len() {
        (s, Seq::empty())
    } else {
        let (s, values) = rule_values(u, found, (n - 1) as nat, ctx, flag, s);
        let (slot, rule) = found[n - 1];
        let (s, change) = change_of(u, u.rules[rule as int].1, ctx, s);
        let (s, cur) = known_of(s, slot_reg(ctx, slot));
        let (s, new) = op_of(s, Opcode::Add, seq![cur, change]);
        let (s, new) = chosen(s, new, cur, flag);
        (s, values.push(new))
    }
}

/// The slot and the new value of each of the first `n` computed-slot rules.
pub open spec fn dyn_values(
    u: RulesView,
    n: nat,
    entity: u128,
    ctx: CtxView,
    flag: Option<u32>,
    s: Emit,
) -> (Emit, Seq<(u32, u32)>)
    decreases n,
{
    if n == 0 || n > u.dyn_rules.len() {
        (s, Seq::empty())
    } else {
        let (s, values) = dyn_values(u, (n - 1) as nat, entity, ctx, flag, s);
        let (index, expr) = u.dyn_rules[n - 1];
        let target = Some(at(entity, ComponentView::State, 0));
        let (s, change) = change_of(u, expr, ctx, s);
        let (s, ri) = lower_expr_spec(index, ctx, s);
        let (s, cur) = result_of(
            s,
            Opcode::ReadSlotDyn,
            ValueType::F64,
            seq![ri],
            None,
            target,
        );
        let (s, new) = op_of(s, Opcode::Add, seq![cur, change]);
        let (s, new) = chosen(s, new, cur, flag);
        (s, values.push((ri, new)))
    }
}

/// The writes of the first `n` resolved rules.
pub open spec fn rule_writes(
    found: Seq<(usize, nat)>,
    values: Seq<u32>,
    n: nat,
    entity: u128,
    s: Emit,
) -> Emit
    decreases n,
{
    if n == 0 || n > found.len() {
        s
    } else {
        write_of(
            rule_writes(found, values, (n - 1) as nat, entity, s),
            entity,
            ComponentView::State,
            slot_offset(found[n - 1].0),
            values[n - 1],
        )
    }
}

/// The writes of the first `n` computed-slot rules.
pub open spec fn dyn_writes(values: Seq<(u32, u32)>, n: nat, entity: u128, s: Emit) -> Emit
    decreases n,
{
    if n == 0 || n > values.len() {
        s
    } else {
        effect_of(
            dyn_writes(values, (n - 1) as nat, entity, s),
            Opcode::WriteSlotDyn,
            seq![values[n - 1].0, values[n - 1].1],
            Some(at(entity, ComponentView::State, 0)),
        )
    }
}

/// What stays fixed over the substeps of one entity.
pub struct Frame {
    pub entity: u128,
    pub sn: Layout,
    pub slots: usize,
    pub ref_regs: Seq<(u128, PropKind, u32)>,
    pub prop_regs: Seq<(u128, PropKind, u32)>,
}

/// One substep: read the own slots, run the statements, then the rules.
pub open spec fn update_substep(u: RulesView, f: Frame, out: Seq<InstructionView>) -> Seq<
    InstructionView,
> {
    let (out, slot_regs) = slot_reads(out, f.entity, f.slots as nat);
    let parts = PartsView {
        slot_regs,
        ref_regs: f.ref_regs,
        prop_regs: f.prop_regs,
        state_names: f.sn,
        scope: u.scope,
        current_entity: f.entity,
    };
    let b = lower_stmts(u.lets, u.lets.len(), None, parts, resumed(out), Seq::empty());
    let ctx = CtxView { parts, locals: b.locals };
    let (s, flag) = flag_of(u.when, ctx, b.s);
    let found = resolved(u.rules, u.rules.len(), f.sn);
    let (s, values) = rule_values(u, found, found.len(), ctx, flag, s);
    let (s, pairs) = dyn_values(u, u.dyn_rules.len(), f.entity, ctx, flag, s);
    let s = rule_writes(found, values, found.len(), f.entity, s);
    dyn_writes(pairs, pairs.len(), f.entity, s).out
}

/// The first `n` substeps.
pub open spec fn update_substeps(u: RulesView, f: Frame, n: nat, out: Seq<InstructionView>) -> Seq<
    InstructionView,
>
    decreases n,
{
    if n == 0 {
        out
    } else {
        update_substep(u, f, update_substeps(u, f, (n - 1) as nat, out))
    }
}

/// The start of a function that may be scheduled, and the condition and index of
/// its branch.
pub open spec fn opened(every: Option<u64>, out: Seq<InstructionView>) -> (
    Seq<InstructionView>,
    Option<(u32, nat)>,
) {
    match every {
        None => (out, None),
        Some(n) => {
            let (s, skip) = schedule_of(resumed(out), n, Real::Bits(ZERO));
            (s.out, Some((skip, (s.out.len() - 1) as nat)))
        },
    }
}

/// Starts a function that may be scheduled.
pub fn open_function(every: Option<u64>, out: &mut Vec<Instruction>) -> (r: Option<(u32, usize)>)
    ensures
        (code(final(out)@), branch_view(r)) == opened(every, code(old(out)@)),
{
    match every {
        None => None,
        Some(n) => {
            let mut next: u32 = fresh_reg(out);
            Some(emit_schedule(n, Real::Bits(ZERO), &mut next, out))
        },
    }
}

/// The function of an `update` system for one entity.
pub open spec fn update_lowered(u: RulesView, entity: u128, out: Seq<InstructionView>) -> Seq<
    InstructionView,
> {
    if !applies(u.only, entity) {
        ended(out)
    } else {
        let (out, branch) = opened(u.every, out);
        let sn = crate::scope::layout_of(u.scope.state_names_by_id, entity);
        let refs = rule_refs(u);
        let (out, ref_regs) = key_reads(out, refs.slots, refs.slots.len());
        let (out, prop_regs) = key_reads(out, refs.props, refs.props.len());
        let f = Frame { entity, sn, slots: update_slots(u, sn), ref_regs, prop_regs };
        closed(update_substeps(u, f, u.substeps as nat, out), branch)
    }
}

impl UpdateSystem {
    /// Lowers the change of a rule.
    fn lower_change(
        &self,
        expr: &Expr,
        ctx: &LowerCtx<'_>,
        next_id: &mut u32,
        out: &mut Vec<Instruction>,
    ) -> (r: u32)
        ensures
            (emit_state(*final(next_id), final(out)@), r) == change_of(
                self@,
                expr@,
                ctx@,
                emit_state(*old(next_id), old(out)@),
            ),
    {
        let value: u32 = lower_expr(expr, ctx, next_id, out);
        let step = Real::Step { dt: self.dt, substeps: self.substeps as u64 };
        let dt: u32 = const_reg(step, next_id, out);
        binary(Opcode::Mul, value, dt, next_id, out)
    }

    /// Lowers the new values of the resolved rules.
    fn lower_rules(
        &self,
        found: &Vec<(usize, usize)>,
        ctx: &LowerCtx<'_>,
        flag: Option<u32>,
        next_id: &mut u32,
        out: &mut Vec<Instruction>,
    ) -> (r: Vec<u32>)
        requires
            forall|i: int| 0 <= i < found@.len() ==> (#[trigger] found@[i]).1 < self.rules@.len(),
        ensures
            (emit_state(*final(next_id), final(out)@), r@) == rule_values(
                self@,
                found@.map_values(|e: (usize, usize)| (e.0, e.1 as nat)),
                found@.len(),
                ctx@,
                flag,
                emit_state(*old(next_id), old(out)@),
            ),
            r@.len() == found@.len(),
    {
        let ghost start = emit_state(*next_id, out@);
        let ghost views = found@.map_values(|e: (usize, usize)| (e.0, e.1 as nat));
        let mut values: Vec<u32> = Vec::new();
        let mut i: usize = 0;
        while i < found.len()
            invariant
                i <= found.len(),
                values@.len() == i,
                views == found@.map_values(|e: (usize, usize)| (e.0, e.1 as nat)),
                forall|k: int|
                    0 <= k < found@.len() ==> (#[trigger] found@[k]).1 < self.rules@.len(),
                (emit_state(*next_id, out@), values@) == rule_values(
                    self@,
                    views,
                    i as nat,
                    ctx@,
                    flag,
                    start,
                ),
            decreases found.len() - i,
        {
            let pair: (usize, usize) = found[i];
            proof {
                assert(views[i as int] == (pair.0, pair.1 as nat));
                assert(self@.rules[pair.1 as int].1 == self.rules@[pair.1 as int].1@);
            }
            let change: u32 = self.lower_change(&self.rules[pair.1].1, ctx, next_id, out);
            let cur: u32 = known(ctx.slot(pair.0), next_id, out);
            let sum: u32 = binary(Opcode::Add, cur, change, next_id, out);
            let new: u32 = choose_value(sum, cur, flag, next_id, out);
            values.push(new);
            i = i + 1;
        }
        values
    }

    /// Lowers the slots and the new values of the computed-slot rules.
    fn lower_dyn_rules(
        &self,
        entity: u128,
        ctx: &LowerCtx<'_>,
        flag: Option<u32>,
        next_id: &mut u32,
        out: &mut Vec<Instruction>,
    ) -> (r: Vec<(u32, u32)>)
        ensures
            (emit_state(*final(next_id), final(out)@), r@) == dyn_values(
                self@,
                self.dyn_rules@.len(),
                entity,
                ctx@,
                flag,
                emit_state(*old(next_id), old(out)@),
            ),
    {
        let ghost start = emit_state(*next_id, out@);
        let mut values: Vec<(u32, u32)> = Vec::new();
        let mut i: usize = 0;
        while i < self.dyn_rules.len()
            invariant
                i <= self.dyn_rules.len(),
                (emit_state(*next_id, out@), values@) == dyn_values(
                    self@,
                    i as nat,
                    entity,
                    ctx@,
                    flag,
                    start,
                ),
            decreases self.dyn_rules.len() - i,
        {
            proof {
                assert(self@.dyn_rules[i as int] == (
                    self.dyn_rules@[i as int].0@,
                    self.dyn_rules@[i as int].1@,
                ));
            }
            let change: u32 = self.lower_change(&self.dyn_rules[i].1, ctx, next_id, out);
            let ri: u32 = lower_expr(&self.dyn_rules[i].0, ctx, next_id, out);
            let operands: Vec<u32> = vec![ri];
            proof {
                assert(operands@ =~= seq![ri]);
            }
            let cur: u32 = emit(
                Opcode::ReadSlotDyn,
                ValueType::F64,
                operands,
                None,
                Some(cr(entity, Component::State, 0)),
                next_id,
                out,
            );
            let sum: u32 = binary(Opcode::Add, cur, change, next_id, out);
            let new: u32 = choose_value(sum, cur, flag, next_id, out);
            values.push((ri, new));
            i = i + 1;
        }
        values
    }

    /// Lowers one substep.
    fn lower_substep(
        &self,
        entity: u128,
        sn: &NameMap<usize>,
        slots: usize,
        found: &Vec<(usize, usize)>,
        ref_regs: &RegMap,
        prop_regs: &RegMap,
        out: &mut Vec<Instruction>,
    )
        requires
            found@.map_values(|e: (usize, usize)| (e.0, e.1 as nat)) == resolved(
                self@.rules,
                self@.rules.len(),
                sn@,
            ),
            forall|i: int| 0 <= i < found@.len() ==> (#[trigger] found@[i]).1 < self.rules@.len(),
        ensures
            code(final(out)@) == update_substep(
                self@,
                Frame { entity, sn: sn@, slots, ref_regs: ref_regs@, prop_regs: prop_regs@ },
                code(old(out)@),
            ),
    {
        let slot_regs: Vec<u32> = read_slots(entity, slots, out);
        let mut locals: NameMap<u32> = NameMap::new();
        let mut next_id: u32 = fresh_reg(out);
        let parts = LowerParts {
            slot_regs: &slot_regs,
            ref_regs,
            prop_regs,
            state_names: sn,
            scope: &self.scope,
            current_entity: entity,
        };
        let _ = lower_let_block(&self.lets, None, &mut next_id, out, &mut locals, &parts);
        let ctx = parts.ctx(&locals);
        let flag: Option<u32> = lower_flag(&self.when, &ctx, &mut next_id, out);
        let values: Vec<u32> = self.lower_rules(found, &ctx, flag, &mut next_id, out);
        let pairs: Vec<(u32, u32)> = self.lower_dyn_rules(entity, &ctx, flag, &mut next_id, out);
        write_slots(found, &values, entity, next_id, out);
        write_dyn_slots(&pairs, entity, next_id, out);
        proof {
            assert(found@.map_values(|e: (usize, usize)| (e.0, e.1 as nat)).len() == found@.len());
        }
    }

    /// Counts the own slots to read; also resolves the rules.
    fn plan(&self, sn: &NameMap<usize>) -> (r: (Vec<(usize, usize)>, usize))
        ensures
            r.0@.map_values(|e: (usize, usize)| (e.0, e.1 as nat)) == resolved(
                self@.rules,
                self@.rules.len(),
                sn@,
            ),
            r.1 == update_slots(self@, sn@),
            forall|i: int| 0 <= i < r.0@.len() ==> (#[trigger] r.0@[i]).1 < self.rules@.len(),
    {
        let (found, lhs) = resolve_rules(&self.rules, sn);
        let lets: Option<usize> = let_stmts_slot_span(&self.lets, sn);
        let cond: Option<usize> = cond_span(&self.when, sn);
        let index: Option<usize> = dyn_span(&self.dyn_rules, sn);
        let rhs: Option<usize> = rhs_span(&self.rules, sn);
        let top: Option<usize> = later_of(
            later_of(later_of(lhs, lets), later_of(cond, index)),
            rhs,
        );
        let most: usize = past_of(top);
        let slots: usize = larger(self.slots_hint, most);
        (found, slots)
    }
}

fn write_slots(
    found: &Vec<(usize, usize)>,
    values: &Vec<u32>,
    entity: u128,
    next_id: u32,
    out: &mut Vec<Instruction>,
)
    requires
        values@.len() == found@.len(),
    ensures
        emit_state(next_id, final(out)@) == rule_writes(
            found@.map_values(|e: (usize, usize)| (e.0, e.1 as nat)),
            values@,
            found@.len(),
            entity,
            emit_state(next_id, old(out)@),
        ),
{
    let ghost start = emit_state(next_id, out@);
    let ghost views = found@.map_values(|e: (usize, usize)| (e.0, e.1 as nat));
    let mut i: usize = 0;
    while i < found.len()
        invariant
            i <= found.len(),
            values@.len() == found@.len(),
            views == found@.map_values(|e: (usize, usize)| (e.0, e.1 as nat)),
            emit_state(next_id, out@) == rule_writes(views, values@, i as nat, entity, start),
        decreases found.len() - i,
    {
        proof {
            assert(views[i as int].0 == found@[i as int].0);
        }
        write_reg(entity, Component::State, state_slot(found[i].0), values[i], out);
        proof {
            assert(emit_state(next_id, out@).next == next_id);
        }
        i = i + 1;
    }
}

fn write_dyn_slots(
    values: &Vec<(u32, u32)>,
    entity: u128,
    next_id: u32,
    out: &mut Vec<Instruction>,
)
    ensures
        emit_state(next_id, final(out)@) == dyn_writes(
            values@,
            values@.len(),
            entity,
            emit_state(next_id, old(out)@),
        ),
{
    let ghost start = emit_state(next_id, out@);
    let mut i: usize = 0;
    while i < values.len()
        invariant
            i <= values.len(),
            emit_state(next_id, out@) == dyn_writes(values@, i as nat, entity, start),
        decreases values.len() - i,
    {
        let pair: (u32, u32) = values[i];
        let both: Vec<u32> = vec![pair.0, pair.1];
        proof {
            assert(both@ =~= seq![pair.0, pair.1]);
        }
        emit_effect(Opcode::WriteSlotDyn, both, Some(cr(entity, Component::State, 0)), out);
        i = i + 1;
    }
}

impl EirSystem for UpdateSystem {
    open spec fn title(&self) -> Seq<char> {
        "physics.update"@
    }

    open spec fn lowered(&self, entity: u128, out: Seq<InstructionView>) -> Seq<InstructionView> {
        update_lowered(self@, entity, out)
    }

    fn name(&self) -> (r: &'static str) {
        "physics.update"
    }

    fn lower_entity(&self, entity: u128, out: &mut Vec<Instruction>) {
        if !rule_applies(&self.only, entity) {
            end(out);
            return ;
        }
        let branch: Option<(u32, usize)> = open_function(self.every, out);
        let sn: NameMap<usize> = self.scope.state_names_by_id.layout(entity);
        let (found, slots) = self.plan(&sn);
        let refs: Refs = collect_rule_refs(
            &self.rules,
            &self.dyn_rules,
            &self.when,
            &self.lets,
            &self.scope,
        );
        let ref_regs: RegMap = read_keys(&refs.slots, out);
        let prop_regs: RegMap = read_keys(&refs.props, out);
        let ghost f = Frame {
            entity,
            sn: sn@,
            slots,
            ref_regs: ref_regs@,
            prop_regs: prop_regs@,
        };
        let ghost start = code(out@);
        let mut k: usize = 0;
        while k < self.substeps
            invariant
                k <= self.substeps,
                found@.map_values(|e: (usize, usize)| (e.0, e.1 as nat)) == resolved(
                    self@.rules,
                    self@.rules.len(),
                    sn@,
                ),
                forall|i: int|
                    0 <= i < found@.len() ==> (#[trigger] found@[i]).1 < self.rules@.len(),
                f == (Frame {
                    entity,
                    sn: sn@,
                    slots,
                    ref_regs: ref_regs@,
                    prop_regs: prop_regs@,
                }),
                code(out@) == update_substeps(self@, f, k as nat, start),
            decreases self.substeps - k,
        {
            self.lower_substep(entity, &sn, slots, &found, &ref_regs, &prop_regs, out);
            k = k + 1;
        }
        close(branch, out);
    }
}

} // verus!
