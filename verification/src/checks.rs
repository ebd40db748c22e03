//! Systems that observe the state: invariants and zero-crossing watches.

use crate::block::{lower_let_block, lower_stmts};
use crate::eir::{
    code, slot_offset, state_slot, Component, ComponentView, Instruction, InstructionView, Opcode,
    ONE, ZERO,
};
use crate::emit::{
    binary, bits_of, bits_reg, emit_state, fresh_reg, known, known_of, op_of, resumed, return_of,
    return_reg, select, select_bool, select_bool_of, test_of, test_reg, write_of, write_reg, Emit,
};
use crate::expr::{stmt_views, Expr, ExprView, LetStmt, LetStmtView};
use crate::lower::{lower_expr, lower_expr_spec};
use crate::names::NameMap;
use crate::refs::{
    collect_let_refs, collect_refs, expr_slot_span, later, later_of, let_stmts_slot_span, no_refs,
    refs_of, refs_stmts, span, span_stmts, Refs, RefsView,
};
use crate::rules::{
    applies, end, ended, key_reads, only_view, read_keys, read_slots, rule_applies, slot_reads,
    EirSystem,
};
use crate::scope::{layout_of, slot_reg, CtxView, LowerParts, PartsView, RegMap, Scope, ScopeView};
use crate::update::{past, past_of};
use vstd::prelude::*;

verus! {

/// An expression that must hold, that is differ from zero, for the checked
/// entities after every step. Its verdict, one where it is violated, is written to
/// a hidden field.
pub struct InvariantSystem {
    pub expr: Expr,
    /// Statements that run before the check.
    pub lets: Vec<LetStmt>,
    /// Byte offset of the verdict; each invariant has its own.
    pub check_offset: u32,
    /// The entities that are checked; all without a list.
    pub only: Option<Vec<u128>>,
    pub scope: Scope,
}

/// The code that reads what an observed expression needs: own slots, and slots and
/// properties of other entities.
pub open spec fn observed(
    scope: ScopeView,
    entity: u128,
    slots: usize,
    refs: RefsView,
    out: Seq<InstructionView>,
) -> (Seq<InstructionView>, PartsView) {
    let (out, slot_regs) = slot_reads(out, entity, slots as nat);
    let (out, ref_regs) = key_reads(out, refs.slots, refs.slots.len());
    let (out, prop_regs) = key_reads(out, refs.props, refs.props.len());
    (
        out,
        PartsView {
            slot_regs,
            ref_regs,
            prop_regs,
            state_names: layout_of(scope.state_names_by_id, entity),
            scope,
            current_entity: entity,
        },
    )
}

/// The function of an invariant for one entity.
pub open spec fn invariant_lowered(
    expr: ExprView,
    lets: Seq<LetStmtView>,
    check_offset: u32,
    only: Option<Seq<u128>>,
    scope: ScopeView,
    entity: u128,
    out: Seq<InstructionView>,
) -> Seq<InstructionView> {
    if !applies(only, entity) {
        ended(out)
    } else {
        let sn = layout_of(scope.state_names_by_id, entity);
        let refs = refs_stmts(
            lets,
            lets.len(),
            scope.entity_map,
            scope.state_names_by_id,
            refs_of(expr, scope.entity_map, scope.state_names_by_id, no_refs()),
        );
        let slots = past(later(span(expr, sn), span_stmts(lets, lets.len(), sn)));
        let (out, parts) = observed(scope, entity, slots, refs, out);
        let b = lower_stmts(lets, lets.len(), None, parts, resumed(out), Seq::empty());
        let (s, value) = lower_expr_spec(expr, CtxView { parts, locals: b.locals }, b.s);
        let (s, zero) = bits_of(s, ZERO);
        let (s, one) = bits_of(s, ONE);
        let (s, violated) = test_of(s, Opcode::Eq, seq![value, zero]);
        let (s, verdict) = op_of(s, Opcode::Select, seq![violated, one, zero]);
        return_of(write_of(s, entity, ComponentView::Check, check_offset, verdict)).out
    }
}

impl EirSystem for InvariantSystem {
    open spec fn title(&self) -> Seq<char> {
        "lang.invariant"@
    }

    open spec fn lowered(&self, entity: u128, out: Seq<InstructionView>) -> Seq<InstructionView> {
        invariant_lowered(
            self.expr@,
            stmt_views(self.lets@),
            self.check_offset,
            only_view(self.only),
            self.scope@,
            entity,
            out,
        )
    }

    fn name(&self) -> (r: &'static str) {
        "lang.invariant"
    }

    fn lower_entity(&self, entity: u128, out: &mut Vec<Instruction>) {
        if !rule_applies(&self.only, entity) {
            end(out);
            return ;
        }
        let sn: NameMap<usize> = self.scope.state_names_by_id.layout(entity);
        let mut refs = Refs::new();
        collect_refs(
            &self.expr,
            &self.scope.entity_map,
            &self.scope.state_names_by_id,
            &mut refs,
        );
        collect_let_refs(
            &self.lets,
            &self.scope.entity_map,
            &self.scope.state_names_by_id,
            &mut refs,
        );
        let slots: usize = past_of(
            later_of(expr_slot_span(&self.expr, &sn), let_stmts_slot_span(&self.lets, &sn)),
        );
        let slot_regs: Vec<u32> = read_slots(entity, slots, out);
        let ref_regs: RegMap = read_keys(&refs.slots, out);
        let prop_regs: RegMap = read_keys(&refs.props, out);
        let mut locals: NameMap<u32> = NameMap::new();
        let mut next_id: u32 = fresh_reg(out);
        let parts = LowerParts {
            slot_regs: &slot_regs,
            ref_regs: &ref_regs,
            prop_regs: &prop_regs,
            state_names: &sn,
            scope: &self.scope,
            current_entity: entity,
        };
        let _ = lower_let_block(&self.lets, None, &mut next_id, out, &mut locals, &parts);
        let value: u32 = lower_expr(&self.expr, &parts.ctx(&locals), &mut next_id, out);
        let zero: u32 = bits_reg(ZERO, &mut next_id, out);
        let one: u32 = bits_reg(ONE, &mut next_id, out);
        let violated: u32 = test_reg(Opcode::Eq, value, zero, &mut next_id, out);
        let verdict: u32 = select(violated, one, zero, &mut next_id, out);
        write_reg(entity, Component::Check, self.check_offset, verdict, out);
        proof {
            assert(emit_state(next_id, out@).out == code(out@));
        }
        return_reg(out);
        proof {
            assert(emit_state(next_id, out@).out == code(out@));
        }
    }
}

/// Detects when an expression changes sign between two steps. The value of the
/// step before lives in a state slot of the entity, and so does the flag.
pub struct WatchSystem {
    pub expr: Expr,
    /// The slot that holds the value of the step before.
    pub mem: usize,
    /// The slot that receives the flag, one or zero.
    pub into: usize,
    /// The entities that are watched; all without a list.
    pub only: Option<Vec<u128>>,
    pub scope: Scope,
}

/// One where two values lie strictly on different sides of zero, else zero.
pub open spec fn crossing_of(s: Emit, a: u32, b: u32) -> (Emit, u32) {
    let (s, zero) = bits_of(s, ZERO);
    let (s, t) = test_of(s, Opcode::Lt, seq![a, zero]);
    let (s, a_below) = select_bool_of(s, t);
    let (s, t) = test_of(s, Opcode::Gt, seq![b, zero]);
    let (s, b_above) = select_bool_of(s, t);
    let (s, up) = op_of(s, Opcode::Mul, seq![a_below, b_above]);
    let (s, t) = test_of(s, Opcode::Gt, seq![a, zero]);
    let (s, a_above) = select_bool_of(s, t);
    let (s, t) = test_of(s, Opcode::Lt, seq![b, zero]);
    let (s, b_below) = select_bool_of(s, t);
    let (s, down) = op_of(s, Opcode::Mul, seq![a_above, b_below]);
    op_of(s, Opcode::Add, seq![up, down])
}

fn crossing_reg(a: u32, b: u32, next_id: &mut u32, out: &mut Vec<Instruction>) -> (r: u32)
    ensures
        (emit_state(*final(next_id), final(out)@), r) == crossing_of(
            emit_state(*old(next_id), old(out)@),
            a,
            b,
        ),
{
    let zero: u32 = bits_reg(ZERO, next_id, out);
    let t: u32 = test_reg(Opcode::Lt, a, zero, next_id, out);
    let a_below: u32 = select_bool(t, next_id, out);
    let t: u32 = test_reg(Opcode::Gt, b, zero, next_id, out);
    let b_above: u32 = select_bool(t, next_id, out);
    let up: u32 = binary(Opcode::Mul, a_below, b_above, next_id, out);
    let t: u32 = test_reg(Opcode::Gt, a, zero, next_id, out);
    let a_above: u32 = select_bool(t, next_id, out);
    let t: u32 = test_reg(Opcode::Lt, b, zero, next_id, out);
    let b_below: u32 = select_bool(t, next_id, out);
    let down: u32 = binary(Opcode::Mul, a_above, b_below, next_id, out);
    binary(Opcode::Add, up, down, next_id, out)
}

/// The function of a watch for one entity. A crossing is a strict sign change: a
/// memory of zero never counts.
pub open spec fn watch_lowered(
    expr: ExprView,
    mem: usize,
    into: usize,
    only: Option<Seq<u128>>,
    scope: ScopeView,
    entity: u128,
    out: Seq<InstructionView>,
) -> Seq<InstructionView> {
    if !applies(only, entity) {
        ended(out)
    } else {
        let sn = layout_of(scope.state_names_by_id, entity);
        let refs = refs_of(expr, scope.entity_map, scope.state_names_by_id, no_refs());
        let slots = past(later(span(expr, sn), later(Some(mem), Some(into))));
        let (out, parts) = observed(scope, entity, slots, refs, out);
        let ctx = CtxView { parts, locals: Seq::empty() };
        let (s, v) = lower_expr_spec(expr, ctx, resumed(out));
        let (s, last) = known_of(s, slot_reg(ctx, mem));
        let (s, crossing) = crossing_of(s, last, v);
        let s = write_of(s, entity, ComponentView::State, slot_offset(into), crossing);
        let s = write_of(s, entity, ComponentView::State, slot_offset(mem), v);
        return_of(s).out
    }
}

impl EirSystem for WatchSystem {
    open spec fn title(&self) -> Seq<char> {
        "lang.watch"@
    }

    open spec fn lowered(&self, entity: u128, out: Seq<InstructionView>) -> Seq<InstructionView> {
        watch_lowered(
            self.expr@,
            self.mem,
            self.into,
            only_view(self.only),
            self.scope@,
            entity,
            out,
        )
    }

    fn name(&self) -> (r: &'static str) {
        "lang.watch"
    }

    fn lower_entity(&self, entity: u128, out: &mut Vec<Instruction>) {
        if !rule_applies(&self.only, entity) {
            end(out);
            return ;
        }
        let sn: NameMap<usize> = self.scope.state_names_by_id.layout(entity);
        let mut refs = Refs::new();
        collect_refs(
            &self.expr,
            &self.scope.entity_map,
            &self.scope.state_names_by_id,
            &mut refs,
        );
        let slots: usize = past_of(
            later_of(
                expr_slot_span(&self.expr, &sn),
                later_of(Some(self.mem), Some(self.into)),
            ),
        );
        let slot_regs: Vec<u32> = read_slots(entity, slots, out);
        let ref_regs: RegMap = read_keys(&refs.slots, out);
        let prop_regs: RegMap = read_keys(&refs.props, out);
        let locals: NameMap<u32> = NameMap::new();
        let mut next_id: u32 = fresh_reg(out);
        let parts = LowerParts {
            slot_regs: &slot_regs,
            ref_regs: &ref_regs,
            prop_regs: &prop_regs,
            state_names: &sn,
            scope: &self.scope,
            current_entity: entity,
        };
        let ctx = parts.ctx(&locals);
        let v: u32 = lower_expr(&self.expr, &ctx, &mut next_id, out);
        let last: u32 = known(ctx.slot(self.mem), &mut next_id, out);
        let crossing: u32 = crossing_reg(last, v, &mut next_id, out);
        write_reg(entity, Component::State, state_slot(self.into), crossing, out);
        proof {
            assert(emit_state(next_id, out@).out == code(out@));
        }
        write_reg(entity, Component::State, state_slot(self.mem), v, out);
        proof {
            assert(emit_state(next_id, out@).out == code(out@));
        }
        return_reg(out);
        proof {
            assert(emit_state(next_id, out@).out == code(out@));
        }
    }
}

} // verus!
