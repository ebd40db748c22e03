//! The `rk4` system: the rules of `update`, integrated by the classic fourth-order
//! Runge-Kutta method.

use crate::block::{lower_let_block, lower_stmts};
use crate::eir::{
    code, slot_offset, state_slot, Component, ComponentView, Instruction, InstructionView, Opcode,
    Real, TWO, ZERO,
};
use crate::emit::{
    binary, bits_of, bits_reg, const_of, const_reg, emit_state, fresh_reg, known, known_of, op_of,
    resumed, truthy, truthy_of, write_of, write_reg, Emit,
};
use crate::expr::{cond_view, stmt_views, Expr, LetStmt};
use crate::lower::{lower_expr, lower_expr_spec};
use crate::names::NameMap;
use crate::refs::{later, later_of, let_stmts_slot_span, span_stmts, Refs};
use crate::rules::{
    applies, close, closed, end, ended, key_reads, only_view, read_keys, read_slots, rule_applies,
    slot_reads, EirSystem,
};
use crate::scope::{CtxView, Layout, LowerParts, PartsView, RegMap, Scope};
use crate::update::{
    at_least, choose_value, chosen, collect_rule_refs, cond_span, dyn_views, larger, open_function,
    opened, past, past_of, resolve_rules, resolved, rhs_span, rule_refs, rule_views, span_cond,
    span_lhs, span_rhs, Frame, RulesView,
};
use vstd::prelude::*;

verus! {

/// A dynamical system over state slots with the rules of an `update` system,
/// integrated by the classic fourth-order Runge-Kutta method. References to other
/// entities are read once per step.
pub struct Rk4System {
    /// Slot rules; the left side is `sN` or a named slot of the entity.
    pub rules: Vec<(String, Expr)>,
    /// Statements that run before the rules, in every stage.
    pub lets: Vec<LetStmt>,
    /// The least number of slots to read.
    pub slots_hint: usize,
    /// Bits of the step length.
    pub dt: u64,
    /// Run only on the steps divisible by this.
    pub every: Option<u64>,
    /// A condition on the writes.
    pub when: Option<Expr>,
    pub substeps: usize,
    /// The entities that the rules apply to; all without a list.
    pub only: Option<Vec<u128>>,
    pub scope: Scope,
}

impl View for Rk4System {
    type V = RulesView;

    open spec fn view(&self) -> RulesView {
        RulesView {
            rules: rule_views(self.rules@),
            dyn_rules: Seq::empty(),
            lets: stmt_views(self.lets@),
            slots_hint: self.slots_hint,
            dt: self.dt,
            every: self.every,
            substeps: self.substeps,
            only: only_view(self.only),
            when: cond_view(self.when),
            scope: self.scope@,
        }
    }
}

/// The number of own slots that an `rk4` system reads: all that its rules write or read,
/// that its statements and its condition read, and at least the hint.
pub open spec fn rk4_slots(u: RulesView, sn: Layout) -> usize {
    at_least(
        u.slots_hint,
        past(
            later(
                later(
                    later(span_lhs(u.rules, u.rules.len(), sn), span_stmts(u.lets, u.lets.len(), sn)),
                    span_cond(u.when, sn),
                ),
                span_rhs(u.rules, u.rules.len(), sn),
            ),
        ),
    )
}

/// The derivative of a slot in a stage; a slot without a rule has none.
pub open spec fn derivative(k: Seq<Option<u32>>, i: int) -> Option<u32> {
    if 0 <= i < k.len() {
        k[i]
    } else {
        None
    }
}

fn derivative_of(k: &Vec<Option<u32>>, i: usize) -> (r: Option<u32>)
    ensures
        r == derivative(k@, i as int),
{
    if i < k.len() {
        k[i]
    } else {
        None
    }
}

/// The first `n` slots of the working state `y + shift * k`.
pub open spec fn shifted(
    out: Seq<InstructionView>,
    y: Seq<u32>,
    k: Seq<Option<u32>>,
    shift: Real,
    n: nat,
) -> (Seq<InstructionView>, Seq<u32>)
    decreases n,
{
    if n == 0 || n > y.len() {
        (out, Seq::empty())
    } else {
        let (out, work) = shifted(out, y, k, shift, (n - 1) as nat);
        let (out, change) = match derivative(k, n - 1) {
            Some(r) => {
                let (s, c) = const_of(resumed(out), shift);
                let (s, m) = op_of(resumed(s.out), Opcode::Mul, seq![c, r]);
                (s.out, m)
            },
            None => {
                let (s, z) = bits_of(resumed(out), ZERO);
                (s.out, z)
            },
        };
        let (s, w) = op_of(resumed(out), Opcode::Add, seq![y[n - 1], change]);
        (s.out, work.push(w))
    }
}

fn lower_shifted(
    y: &Vec<u32>,
    k: &Vec<Option<u32>>,
    shift: Real,
    out: &mut Vec<Instruction>,
) -> (work: Vec<u32>)
    ensures
        (code(final(out)@), work@) == shifted(code(old(out)@), y@, k@, shift, y@.len()),
{
    let ghost start = code(out@);
    let mut work: Vec<u32> = Vec::new();
    let mut i: usize = 0;
    while i < y.len()
        invariant
            i <= y.len(),
            (code(out@), work@) == shifted(start, y@, k@, shift, i as nat),
        decreases y.len() - i,
    {
        let mut next: u32 = fresh_reg(out);
        let change: u32 = match derivative_of(k, i) {
            Some(r) => {
                let c: u32 = const_reg(shift, &mut next, out);
                next = fresh_reg(out);
                binary(Opcode::Mul, c, r, &mut next, out)
            },
            None => bits_reg(ZERO, &mut next, out),
        };
        let mut last: u32 = fresh_reg(out);
        let w: u32 = binary(Opcode::Add, y[i], change, &mut last, out);
        work.push(w);
        i = i + 1;
    }
    work
}

/// The derivatives of the first `n` resolved rules.
pub open spec fn derivatives(
    u: RulesView,
    found: Seq<(usize, nat)>,
    n: nat,
    slots: usize,
    ctx: CtxView,
    s: Emit,
) -> (Emit, Seq<Option<u32>>)
    decreases n,
{
    if n == 0 || n > found.len() {
        (s, Seq::new(slots as nat, |i: int| None::<u32>))
    } else {
        let (s, k) = derivatives(u, found, (n - 1) as nat, slots, ctx, s);
        let (slot, rule) = found[n - 1];
        let (s, r) = lower_expr_spec(u.rules[rule as int].1, ctx, s);
        (
            s,
            if slot < k.len() {
                k.update(slot as int, Some(r))
            } else {
                k
            },
        )
    }
}

/// One stage: the statements and the derivatives at a working state.
pub open spec fn stage(u: RulesView, f: Frame, work: Seq<u32>, out: Seq<InstructionView>) -> (
    Seq<InstructionView>,
    Seq<Option<u32>>,
) {
    let parts = PartsView {
        slot_regs: work,
        ref_regs: f.ref_regs,
        prop_regs: f.prop_regs,
        state_names: f.sn,
        scope: u.scope,
        current_entity: f.entity,
    };
    let b = lower_stmts(u.lets, u.lets.len(), None, parts, resumed(out), Seq::empty());
    let ctx = CtxView { parts, locals: b.locals };
    let found = resolved(u.rules, u.rules.len(), f.sn);
    let (s, k) = derivatives(u, found, found.len(), f.slots, ctx, b.s);
    (s.out, k)
}

/// The flag of the condition, evaluated on the state before the substep.
pub open spec fn rk4_flag(u: RulesView, f: Frame, out: Seq<InstructionView>) -> (
    Seq<InstructionView>,
    Option<u32>,
) {
    match u.when {
        None => (out, None),
        Some(w) => {
            let (out, slot_regs) = slot_reads(out, f.entity, past(span_cond(u.when, f.sn)) as nat);
            let parts = PartsView {
                slot_regs,
                ref_regs: f.ref_regs,
                prop_regs: f.prop_regs,
                state_names: f.sn,
                scope: u.scope,
                current_entity: f.entity,
            };
            let ctx = CtxView { parts, locals: Seq::empty() };
            let (s, r) = lower_expr_spec(w, ctx, resumed(out));
            let (s, t) = truthy_of(s, r);
            (s.out, Some(t))
        },
    }
}

/// The registers of the four derivatives of a slot, zero where it has none.
pub open spec fn weights(ks: Seq<Seq<Option<u32>>>, j: int, slot: usize) -> u32 {
    match derivative(ks[j], slot as int) {
        Some(r) => r,
        None => 0,
    }
}

/// The new value of a slot: `y + (dt/6) * (k1 + 2*k2 + 2*k3 + k4)` where the condition
/// holds, else `y`.
pub open spec fn combined(
    u: RulesView,
    slot: usize,
    y: u32,
    ks: Seq<Seq<Option<u32>>>,
    flag: Option<u32>,
    s: Emit,
) -> (Emit, u32) {
    let (s, y) = known_of(s, y);
    let (s, k1) = known_of(s, weights(ks, 0, slot));
    let (s, k2) = known_of(s, weights(ks, 1, slot));
    let (s, k3) = known_of(s, weights(ks, 2, slot));
    let (s, k4) = known_of(s, weights(ks, 3, slot));
    let (s, c2) = bits_of(s, TWO);
    let (s, two_k2) = op_of(s, Opcode::Mul, seq![c2, k2]);
    let (s, c3) = bits_of(s, TWO);
    let (s, two_k3) = op_of(s, Opcode::Mul, seq![c3, k3]);
    let (s, a) = op_of(s, Opcode::Add, seq![k1, two_k2]);
    let (s, b) = op_of(s, Opcode::Add, seq![two_k3, k4]);
    let (s, sum) = op_of(s, Opcode::Add, seq![a, b]);
    let (s, c6) = const_of(
        s,
        Real::StepOver { dt: u.dt, substeps: u.substeps as u64, by: 6 },
    );
    let (s, change) = op_of(s, Opcode::Mul, seq![c6, sum]);
    let (s, new) = op_of(s, Opcode::Add, seq![y, change]);
    chosen(s, new, y, flag)
}

/// The register of a slot in a state, zero past its end.
pub open spec fn held(y: Seq<u32>, slot: usize) -> u32 {
    if slot < y.len() {
        y[slot as int]
    } else {
        0
    }
}

/// The writes of the first `n` resolved rules.
pub open spec fn combined_writes(
    u: RulesView,
    f: Frame,
    n: nat,
    y: Seq<u32>,
    ks: Seq<Seq<Option<u32>>>,
    flag: Option<u32>,
    out: Seq<InstructionView>,
) -> Seq<InstructionView>
    decreases n,
{
    let found = resolved(u.rules, u.rules.len(), f.sn);
    if n == 0 || n > found.len() {
        out
    } else {
        let out = combined_writes(u, f, (n - 1) as nat, y, ks, flag, out);
        let slot = found[n - 1].0;
        let (s, new) = combined(u, slot, held(y, slot), ks, flag, resumed(out));
        write_of(s, f.entity, ComponentView::State, slot_offset(slot), new).out
    }
}

/// One substep: the four stages and the combination.
pub open spec fn rk4_substep(u: RulesView, f: Frame, out: Seq<InstructionView>) -> Seq<
    InstructionView,
> {
    let half = Real::StepOver { dt: u.dt, substeps: u.substeps as u64, by: 2 };
    let full = Real::Step { dt: u.dt, substeps: u.substeps as u64 };
    let (out, y) = slot_reads(out, f.entity, f.slots as nat);
    let (out, k1) = stage(u, f, y, out);
    let (out, w2) = shifted(out, y, k1, half, y.len());
    let (out, k2) = stage(u, f, w2, out);
    let (out, w3) = shifted(out, y, k2, half, y.len());
    let (out, k3) = stage(u, f, w3, out);
    let (out, w4) = shifted(out, y, k3, full, y.len());
    let (out, k4) = stage(u, f, w4, out);
    let (out, flag) = rk4_flag(u, f, out);
    combined_writes(
        u,
        f,
        resolved(u.rules, u.rules.len(), f.sn).len(),
        y,
        seq![k1, k2, k3, k4],
        flag,
        out,
    )
}

/// The first `n` substeps.
pub open spec fn rk4_substeps(u: RulesView, f: Frame, n: nat, out: Seq<InstructionView>) -> Seq<
    InstructionView,
>
    decreases n,
{
    if n == 0 {
        out
    } else {
        rk4_substep(u, f, rk4_substeps(u, f, (n - 1) as nat, out))
    }
}

/// The function of an `rk4` system for one entity.
pub open spec fn rk4_lowered(u: RulesView, entity: u128, out: Seq<InstructionView>) -> Seq<
    InstructionView,
> {
    if !applies(u.only, entity) {
        ended(out)
    } else {
        let (out, branch) = opened(u.every, out);
        let sn = crate::scope::layout_of(u.scope.state_names_by_id, entity);
        let refs = rule_refs(u);
        let (out, ref_regs) = key_reads(out, refs.slots, refs.slots.len());
        let (out, prop_regs) = key_reads(out, refs.props, refs.props.len());
        let f = Frame { entity, sn, slots: rk4_slots(u, sn), ref_regs, prop_regs };
        closed(rk4_substeps(u, f, u.substeps as nat, out), branch)
    }
}

/// The executable counterpart of [`Frame`], with the resolved rules.
struct Setting {
    entity: u128,
    sn: NameMap<usize>,
    slots: usize,
    found: Vec<(usize, usize)>,
    ref_regs: RegMap,
    prop_regs: RegMap,
}

impl Setting {
    spec fn frame(&self) -> Frame {
        Frame {
            entity: self.entity,
            sn: self.sn@,
            slots: self.slots,
            ref_regs: self.ref_regs@,
            prop_regs: self.prop_regs@,
        }
    }

    spec fn found_view(&self) -> Seq<(usize, nat)> {
        self.found@.map_values(|e: (usize, usize)| (e.0, e.1 as nat))
    }

    spec fn fits(&self, u: RulesView) -> bool {
        &&& self.found_view() == resolved(u.rules, u.rules.len(), self.sn@)
        &&& forall|i: int|
            0 <= i < self.found@.len() ==> (#[trigger] self.found@[i]).1 < u.rules.len()
    }
}

impl Rk4System {
    fn lower_stage(&self, f: &Setting, work: &Vec<u32>, out: &mut Vec<Instruction>) -> (k: Vec<
        Option<u32>,
    >)
        requires
            f.fits(self@),
        ensures
            (code(final(out)@), k@) == stage(self@, f.frame(), work@, code(old(out)@)),
    {
        let mut locals: NameMap<u32> = NameMap::new();
        let mut next_id: u32 = fresh_reg(out);
        let parts = LowerParts {
            slot_regs: work,
            ref_regs: &f.ref_regs,
            prop_regs: &f.prop_regs,
            state_names: &f.sn,
            scope: &self.scope,
            current_entity: f.entity,
        };
        let _ = lower_let_block(&self.lets, None, &mut next_id, out, &mut locals, &parts);
        let ctx = parts.ctx(&locals);
        let ghost start = emit_state(next_id, out@);
        let mut k: Vec<Option<u32>> = Vec::new();
        let mut j: usize = 0;
        while j < f.slots
            invariant
                j <= f.slots,
                k@.len() == j,
                forall|i: int| 0 <= i < j ==> k@[i] == None::<u32>,
            decreases f.slots - j,
        {
            k.push(None);
            j = j + 1;
        }
        proof {
            assert(k@ =~= Seq::new(f.slots as nat, |i: int| None::<u32>));
        }
        let mut i: usize = 0;
        while i < f.found.len()
            invariant
                i <= f.found.len(),
                f.fits(self@),
                (emit_state(next_id, out@), k@) == derivatives(
                    self@,
                    f.found_view(),
                    i as nat,
                    f.slots,
                    ctx@,
                    start,
                ),
            decreases f.found.len() - i,
        {
            let pair: (usize, usize) = f.found[i];
            proof {
                assert(f.found_view()[i as int] == (pair.0, pair.1 as nat));
                assert(self@.rules[pair.1 as int].1 == self.rules@[pair.1 as int].1@);
            }
            let r: u32 = lower_expr(&self.rules[pair.1].1, &ctx, &mut next_id, out);
            if pair.0 < k.len() {
                k.set(pair.0, Some(r));
            }
            i = i + 1;
        }
        k
    }

    fn lower_rk4_flag(&self, f: &Setting, out: &mut Vec<Instruction>) -> (r: Option<u32>)
        ensures
            (code(final(out)@), r) == rk4_flag(self@, f.frame(), code(old(out)@)),
    {
        match &self.when {
            None => None,
            Some(w) => {
                let slots: usize = past_of(cond_span(&self.when, &f.sn));
                let slot_regs: Vec<u32> = read_slots(f.entity, slots, out);
                let locals: NameMap<u32> = NameMap::new();
                let parts = LowerParts {
                    slot_regs: &slot_regs,
                    ref_regs: &f.ref_regs,
                    prop_regs: &f.prop_regs,
                    state_names: &f.sn,
                    scope: &self.scope,
                    current_entity: f.entity,
                };
                let mut next_id: u32 = fresh_reg(out);
                let r: u32 = lower_expr(w, &parts.ctx(&locals), &mut next_id, out);
                Some(truthy(r, &mut next_id, out))
            },
        }
    }

    fn lower_combined(
        &self,
        slot: usize,
        y: u32,
        ks: (&Vec<Option<u32>>, &Vec<Option<u32>>, &Vec<Option<u32>>, &Vec<Option<u32>>),
        flag: Option<u32>,
        next_id: &mut u32,
        out: &mut Vec<Instruction>,
    ) -> (r: u32)
        ensures
            (emit_state(*final(next_id), final(out)@), r) == combined(
                self@,
                slot,
                y,
                seq![ks.0@, ks.1@, ks.2@, ks.3@],
                flag,
                emit_state(*old(next_id), old(out)@),
            ),
    {
        let cur: u32 = known(y, next_id, out);
        let k1: u32 = known(derivative_of(ks.0, slot).unwrap_or(0), next_id, out);
        let k2: u32 = known(derivative_of(ks.1, slot).unwrap_or(0), next_id, out);
        let k3: u32 = known(derivative_of(ks.2, slot).unwrap_or(0), next_id, out);
        let k4: u32 = known(derivative_of(ks.3, slot).unwrap_or(0), next_id, out);
        let c2: u32 = bits_reg(TWO, next_id, out);
        let two_k2: u32 = binary(Opcode::Mul, c2, k2, next_id, out);
        let c3: u32 = bits_reg(TWO, next_id, out);
        let two_k3: u32 = binary(Opcode::Mul, c3, k3, next_id, out);
        let a: u32 = binary(Opcode::Add, k1, two_k2, next_id, out);
        let b: u32 = binary(Opcode::Add, two_k3, k4, next_id, out);
        let sum: u32 = binary(Opcode::Add, a, b, next_id, out);
        let sixth = Real::StepOver { dt: self.dt, substeps: self.substeps as u64, by: 6 };
        let c6: u32 = const_reg(sixth, next_id, out);
        let change: u32 = binary(Opcode::Mul, c6, sum, next_id, out);
        let new: u32 = binary(Opcode::Add, cur, change, next_id, out);
        choose_value(new, cur, flag, next_id, out)
    }

    fn lower_substep(&self, f: &Setting, out: &mut Vec<Instruction>)
        requires
            f.fits(self@),
        ensures
            code(final(out)@) == rk4_substep(self@, f.frame(), code(old(out)@)),
    {
        let half = Real::StepOver { dt: self.dt, substeps: self.substeps as u64, by: 2 };
        let full = Real::Step { dt: self.dt, substeps: self.substeps as u64 };
        let y: Vec<u32> = read_slots(f.entity, f.slots, out);
        let k1: Vec<Option<u32>> = self.lower_stage(f, &y, out);
        let w2: Vec<u32> = lower_shifted(&y, &k1, half, out);
        let k2: Vec<Option<u32>> = self.lower_stage(f, &w2, out);
        let w3: Vec<u32> = lower_shifted(&y, &k2, half, out);
        let k3: Vec<Option<u32>> = self.lower_stage(f, &w3, out);
        let w4: Vec<u32> = lower_shifted(&y, &k3, full, out);
        let k4: Vec<Option<u32>> = self.lower_stage(f, &w4, out);
        let flag: Option<u32> = self.lower_rk4_flag(f, out);
        self.lower_writes(f, &y, (&k1, &k2, &k3, &k4), flag, out);
    }

    fn lower_writes(
        &self,
        f: &Setting,
        y: &Vec<u32>,
        ks: (&Vec<Option<u32>>, &Vec<Option<u32>>, &Vec<Option<u32>>, &Vec<Option<u32>>),
        flag: Option<u32>,
        out: &mut Vec<Instruction>,
    )
        requires
            f.fits(self@),
        ensures
            code(final(out)@) == combined_writes(
                self@,
                f.frame(),
                resolved(self@.rules, self@.rules.len(), f.frame().sn).len(),
                y@,
                seq![ks.0@, ks.1@, ks.2@, ks.3@],
                flag,
                code(old(out)@),
            ),
    {
        let ghost start = code(out@);
        let ghost kv = seq![ks.0@, ks.1@, ks.2@, ks.3@];
        let mut i: usize = 0;
        while i < f.found.len()
            invariant
                i <= f.found.len(),
                f.fits(self@),
                kv == seq![ks.0@, ks.1@, ks.2@, ks.3@],
                code(out@) == combined_writes(
                    self@,
                    f.frame(),
                    i as nat,
                    y@,
                    kv,
                    flag,
                    start,
                ),
            decreases f.found.len() - i,
        {
            let slot: usize = f.found[i].0;
            proof {
                assert(f.found_view()[i as int].0 == slot);
            }
            let base: u32 = if slot < y.len() {
                y[slot]
            } else {
                0
            };
            let mut next_id: u32 = fresh_reg(out);
            let new: u32 = self.lower_combined(slot, base, ks, flag, &mut next_id, out);
            write_reg(f.entity, Component::State, state_slot(slot), new, out);
            proof {
                let s = emit_state(next_id, out@);
                assert(s.out == code(out@));
            }
            i = i + 1;
        }
    }
}

impl EirSystem for Rk4System {
    open spec fn title(&self) -> Seq<char> {
        "physics.rk4"@
    }

    open spec fn lowered(&self, entity: u128, out: Seq<InstructionView>) -> Seq<InstructionView> {
        rk4_lowered(self@, entity, out)
    }

    fn name(&self) -> (r: &'static str) {
        "physics.rk4"
    }

    fn lower_entity(&self, entity: u128, out: &mut Vec<Instruction>) {
        if !rule_applies(&self.only, entity) {
            end(out);
            return ;
        }
        let branch: Option<(u32, usize)> = open_function(self.every, out);
        let sn: NameMap<usize> = self.scope.state_names_by_id.layout(entity);
        let (found, lhs) = resolve_rules(&self.rules, &sn);
        let lets: Option<usize> = let_stmts_slot_span(&self.lets, &sn);
        let cond: Option<usize> = cond_span(&self.when, &sn);
        let rhs: Option<usize> = rhs_span(&self.rules, &sn);
        let most: usize = past_of(later_of(later_of(later_of(lhs, lets), cond), rhs));
        let slots: usize = larger(self.slots_hint, most);
        let none: Vec<(Expr, Expr)> = Vec::new();
        proof {
            assert(dyn_views(none@) =~= self@.dyn_rules);
        }
        let refs: Refs = collect_rule_refs(
            &self.rules,
            &none,
            &self.when,
            &self.lets,
            &self.scope,
        );
        let ref_regs: RegMap = read_keys(&refs.slots, out);
        let prop_regs: RegMap = read_keys(&refs.props, out);
        let f = Setting { entity, sn, slots, found, ref_regs, prop_regs };
        let ghost start = code(out@);
        let mut k: usize = 0;
        while k < self.substeps
            invariant
                k <= self.substeps,
                f.fits(self@),
                code(out@) == rk4_substeps(self@, f.frame(), k as nat, start),
            decreases self.substeps - k,
        {
            self.lower_substep(&f, out);
            k = k + 1;
        }
        close(branch, out);
    }
}

} // verus!
