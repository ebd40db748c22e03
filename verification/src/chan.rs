//! Channel systems. A channel is an entity whose first state slot holds the value
//! published last.

use crate::eir::{
    code, slot_offset, state_slot, Component, ComponentView, Instruction, InstructionView,
};
use crate::emit::{
    emit_state, fresh_reg, read_of, read_reg, resumed, return_of, return_reg, write_of, write_reg,
};
use crate::expr::{cond_view, Expr, ExprView};
use crate::lower::{lower_expr, lower_expr_spec};
use crate::names::NameMap;
use crate::refs::{collect_refs, expr_slot_span, no_refs, refs_of, span, Refs};
use crate::rules::{end, ended, key_reads, read_keys, read_slots, slot_reads, EirSystem};
use crate::scope::{CtxView, Layout, LowerParts, PartsView, RegMap, Scope, ScopeView};
use crate::update::{at_least, larger, past, past_of};
use vstd::prelude::*;

verus! {

/// The direction of a channel system.
#[derive(Clone, Copy, Debug, PartialEq, Eq, Structural)]
pub enum ChanOp {
    Send,
    Recv,
}

/// Publishes to a channel or receives from one. Each entity that sends overwrites
/// the value, so the last sender wins.
pub struct ChanSystem {
    pub op: ChanOp,
    /// The entity of the channel.
    pub channel_entity: u128,
    /// The expression to publish.
    pub value: Option<Expr>,
    /// The own slot to receive into.
    pub slot: usize,
    /// The number of own slots to read, at least.
    pub slots: usize,
    pub scope: Scope,
    /// Named state slots for the expression, whichever entity sends.
    pub state_names: NameMap<usize>,
}

/// The function of a sender for one entity: the value of the expression becomes that of
/// the channel.
pub open spec fn send_lowered(
    channel: u128,
    value: Option<ExprView>,
    slots: usize,
    scope: ScopeView,
    state_names: Layout,
    entity: u128,
    out: Seq<InstructionView>,
) -> Seq<InstructionView> {
    match value {
        None => ended(slot_reads(out, entity, slots as nat).0),
        Some(expr) => {
            let (out, slot_regs) = slot_reads(
                out,
                entity,
                at_least(slots, past(span(expr, state_names))) as nat,
            );
            let refs = refs_of(expr, scope.entity_map, scope.state_names_by_id, no_refs());
            let (out, ref_regs) = key_reads(out, refs.slots, refs.slots.len());
            let (out, prop_regs) = key_reads(out, refs.props, refs.props.len());
            let parts = PartsView {
                slot_regs,
                ref_regs,
                prop_regs,
                state_names,
                scope,
                current_entity: entity,
            };
            let ctx = CtxView { parts, locals: Seq::empty() };
            let (s, r) = lower_expr_spec(expr, ctx, resumed(out));
            return_of(write_of(s, channel, ComponentView::State, slot_offset(0), r)).out
        },
    }
}

/// The function of a receiver for one entity.
pub open spec fn recv_lowered(
    channel: u128,
    slot: usize,
    slots: usize,
    entity: u128,
    out: Seq<InstructionView>,
) -> Seq<InstructionView> {
    let (out, slot_regs) = slot_reads(out, entity, slots as nat);
    let (s, r) = read_of(resumed(out), channel, ComponentView::State, slot_offset(0));
    return_of(write_of(s, entity, ComponentView::State, slot_offset(slot), r)).out
}

impl EirSystem for ChanSystem {
    open spec fn title(&self) -> Seq<char> {
        "physics.chan"@
    }

    open spec fn lowered(&self, entity: u128, out: Seq<InstructionView>) -> Seq<InstructionView> {
        match self.op {
            ChanOp::Send => send_lowered(
                self.channel_entity,
                cond_view(self.value),
                self.slots,
                self.scope@,
                self.state_names@,
                entity,
                out,
            ),
            ChanOp::Recv => recv_lowered(
                self.channel_entity,
                self.slot,
                self.slots,
                entity,
                out,
            ),
        }
    }

    fn name(&self) -> (r: &'static str) {
        "physics.chan"
    }

    fn lower_entity(&self, entity: u128, out: &mut Vec<Instruction>) {
        match self.op {
            ChanOp::Send => {
                match &self.value {
                    None => {
                        let _ = read_slots(entity, self.slots, out);
                        end(out);
                    },
                    Some(expr) => {
                        let slots: usize = larger(
                            self.slots,
                            past_of(expr_slot_span(expr, &self.state_names)),
                        );
                        let slot_regs: Vec<u32> = read_slots(entity, slots, out);
                        let mut refs = Refs::new();
                        collect_refs(
                            expr,
                            &self.scope.entity_map,
                            &self.scope.state_names_by_id,
                            &mut refs,
                        );
                        let ref_regs: RegMap = read_keys(&refs.slots, out);
                        let prop_regs: RegMap = read_keys(&refs.props, out);
                        let locals: NameMap<u32> = NameMap::new();
                        let parts = LowerParts {
                            slot_regs: &slot_regs,
                            ref_regs: &ref_regs,
                            prop_regs: &prop_regs,
                            state_names: &self.state_names,
                            scope: &self.scope,
                            current_entity: entity,
                        };
                        let mut next_id: u32 = fresh_reg(out);
                        let r: u32 = lower_expr(expr, &parts.ctx(&locals), &mut next_id, out);
                        write_reg(self.channel_entity, Component::State, state_slot(0), r, out);
                        proof {
                            assert(emit_state(next_id, out@).out == code(out@));
                        }
                        return_reg(out);
                        proof {
                            assert(emit_state(next_id, out@).out == code(out@));
                        }
                    },
                }
            },
            ChanOp::Recv => {
                let _ = read_slots(entity, self.slots, out);
                let mut next_id: u32 = fresh_reg(out);
                let r: u32 = read_reg(
                    self.channel_entity,
                    Component::State,
                    state_slot(0),
                    &mut next_id,
                    out,
                );
                write_reg(entity, Component::State, state_slot(self.slot), r, out);
                proof {
                    assert(emit_state(next_id, out@).out == code(out@));
                }
                return_reg(out);
                proof {
                    assert(emit_state(next_id, out@).out == code(out@));
                }
            },
        }
    }
}

} // verus!
