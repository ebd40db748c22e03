//! Systems that activate and release the slots of entity pools.

use crate::eir::{
    code, cr, Component, ComponentView, Instruction, InstructionView, Opcode, Real, ValueType, ONE,
    ZERO,
};
use crate::emit::{
    at, binary, bits_of, bits_reg, const_u64_of, const_u64_reg, emit, emit_state, fresh_reg, op_of,
    read_of, read_reg, result_of, resumed, return_of, return_reg, select, test_of, test_reg,
    write_of, write_reg, Emit,
};
use crate::expr::{Expr, ExprView};
use crate::lower::{lower_expr, lower_expr_spec};
use crate::names::NameMap;
use crate::refs::{collect_refs, expr_slot_span, no_refs, refs_of, span, Refs};
use crate::rules::{
    close, closed, contains_id, emit_schedule, end, ended, key_reads, read_keys, read_slots,
    schedule_of, slot_reads, EirSystem,
};
use crate::scope::{layout_of, CtxView, LowerParts, PartsView, RegMap, Scope, ScopeView};
use crate::update::{past, past_of};
use vstd::prelude::*;

verus! {

/// Activates free slots of a pool for one caller, copying the caller's state into
/// each.
pub struct SpawnSystem {
    /// The caller.
    pub on: u128,
    /// The first slot of the pool.
    pub base: u128,
    /// The number of slots of the pool.
    pub count: u32,
    /// The 32-bit limbs of `base`, lowest first.
    pub limbs: [u32; 4],
    /// Slots to activate per emission; zero counts as one.
    pub per_step: u32,
    /// Emit only on the steps with `step % every == phase`.
    pub every: Option<u64>,
    pub phase: u64,
}

/// The mathematical value of a [`SpawnSystem`].
pub struct SpawnView {
    pub on: u128,
    pub base: u128,
    pub count: u32,
    pub limbs: Seq<u32>,
    pub per_step: u32,
    pub every: Option<u64>,
    pub phase: u64,
}

impl View for SpawnSystem {
    type V = SpawnView;

    open spec fn view(&self) -> SpawnView {
        SpawnView {
            on: self.on,
            base: self.base,
            count: self.count,
            limbs: self.limbs@,
            per_step: self.per_step,
            every: self.every,
            phase: self.phase,
        }
    }
}

/// The constants for the first `n` limbs of an id.
pub open spec fn limb_consts(limbs: Seq<u32>, n: nat, s: Emit) -> (Emit, Seq<u32>)
    decreases n,
{
    if n == 0 || n > limbs.len() {
        (s, Seq::empty())
    } else {
        let (s, regs) = limb_consts(limbs, (n - 1) as nat, s);
        let (s, r) = const_u64_of(s, limbs[n - 1] as u64);
        (s, regs.push(r))
    }
}

/// The first `n` activations of one emission.
pub open spec fn activations(operands: Seq<u32>, n: nat, entity: u128, s: Emit) -> Emit
    decreases n,
{
    if n == 0 {
        s
    } else {
        result_of(
            activations(operands, (n - 1) as nat, entity, s),
            Opcode::SpawnInto,
            ValueType::F64,
            operands,
            None,
            Some(at(entity, ComponentView::State, 0)),
        ).0
    }
}

/// The function of a spawner for one entity.
pub open spec fn spawn_lowered(sys: SpawnView, entity: u128, out: Seq<InstructionView>) -> Seq<
    InstructionView,
> {
    if entity != sys.on {
        ended(out)
    } else {
        let s = resumed(out);
        let (s, branch) = match sys.every {
            None => (s, None),
            Some(n) => {
                let (s, skip) = schedule_of(s, n, Real::Nat(sys.phase));
                (s, Some((skip, (s.out.len() - 1) as nat)))
            },
        };
        let (s, limbs) = limb_consts(sys.limbs, sys.limbs.len(), s);
        let (s, count) = const_u64_of(s, sys.count as u64);
        let n = if sys.per_step == 0 {
            1
        } else {
            sys.per_step as nat
        };
        closed(activations(limbs.push(count), n, entity, s).out, branch)
    }
}

impl EirSystem for SpawnSystem {
    open spec fn title(&self) -> Seq<char> {
        "physics.spawn"@
    }

    open spec fn lowered(&self, entity: u128, out: Seq<InstructionView>) -> Seq<InstructionView> {
        spawn_lowered(self@, entity, out)
    }

    fn name(&self) -> (r: &'static str) {
        "physics.spawn"
    }

    fn lower_entity(&self, entity: u128, out: &mut Vec<Instruction>) {
        if entity != self.on {
            end(out);
            return ;
        }
        let mut next_id: u32 = fresh_reg(out);
        let branch: Option<(u32, usize)> = match self.every {
            None => None,
            Some(n) => Some(emit_schedule(n, Real::Nat(self.phase), &mut next_id, out)),
        };
        let ghost after = emit_state(next_id, out@);
        let mut operands: Vec<u32> = Vec::new();
        let mut i: usize = 0;
        while i < 4
            invariant
                i <= 4,
                self.limbs@.len() == 4,
                (emit_state(next_id, out@), operands@) == limb_consts(self.limbs@, i as nat, after),
            decreases 4 - i,
        {
            let r: u32 = const_u64_reg(self.limbs[i] as u64, &mut next_id, out);
            operands.push(r);
            i = i + 1;
        }
        let count: u32 = const_u64_reg(self.count as u64, &mut next_id, out);
        operands.push(count);
        let ghost ready = emit_state(next_id, out@);
        let n: u32 = if self.per_step == 0 {
            1
        } else {
            self.per_step
        };
        let mut k: u32 = 0;
        while k < n
            invariant
                k <= n,
                emit_state(next_id, out@) == activations(operands@, k as nat, entity, ready),
            decreases n - k,
        {
            let copy: Vec<u32> = operands.clone();
            proof {
                assert(copy@ =~= operands@);
            }
            let _ = emit(
                Opcode::SpawnInto,
                ValueType::F64,
                copy,
                None,
                Some(cr(entity, Component::State, 0)),
                &mut next_id,
                out,
            );
            k = k + 1;
        }
        close(branch, out);
    }
}

/// Releases the active slots of a pool for which a condition holds.
pub struct DespawnSystem {
    pub pool_slots: Vec<u128>,
    pub when: Expr,
    pub scope: Scope,
}

/// The function of a release for one entity: the activation flag becomes zero where
/// it is set and the condition holds, and else one or zero as it was.
pub open spec fn despawn_lowered(
    pool_slots: Seq<u128>,
    when: ExprView,
    scope: ScopeView,
    entity: u128,
    out: Seq<InstructionView>,
) -> Seq<InstructionView> {
    if !pool_slots.contains(entity) {
        ended(out)
    } else {
        let sn = layout_of(scope.state_names_by_id, entity);
        let (out, slot_regs) = slot_reads(out, entity, past(span(when, sn)) as nat);
        let refs = refs_of(when, scope.entity_map, scope.state_names_by_id, no_refs());
        let (out, ref_regs) = key_reads(out, refs.slots, refs.slots.len());
        let (out, prop_regs) = key_reads(out, refs.props, refs.props.len());
        let parts = PartsView {
            slot_regs,
            ref_regs,
            prop_regs,
            state_names: sn,
            scope,
            current_entity: entity,
        };
        let (s, active) = read_of(resumed(out), entity, ComponentView::Active, 0);
        let (s, w) = lower_expr_spec(when, CtxView { parts, locals: Seq::empty() }, s);
        let (s, zero) = bits_of(s, ZERO);
        let (s, one) = bits_of(s, ONE);
        let (s, is_active) = test_of(s, Opcode::Ne, seq![active, zero]);
        let (s, active_flag) = op_of(s, Opcode::Select, seq![is_active, one, zero]);
        let (s, holds) = test_of(s, Opcode::Ne, seq![w, zero]);
        let (s, when_flag) = op_of(s, Opcode::Select, seq![holds, one, zero]);
        let (s, both) = op_of(s, Opcode::Mul, seq![active_flag, when_flag]);
        let (s, value) = op_of(s, Opcode::Select, seq![both, zero, active_flag]);
        return_of(write_of(s, entity, ComponentView::Active, 0, value)).out
    }
}

impl DespawnSystem {
    /// Whether the system must be kept from inactive slots. It still has to run on
    /// the slots that it is about to clear.
    pub fn guards_pool_slots(&self) -> (r: bool)
        ensures
            !r,
    {
        false
    }
}

impl EirSystem for DespawnSystem {
    open spec fn title(&self) -> Seq<char> {
        "physics.despawn"@
    }

    open spec fn lowered(&self, entity: u128, out: Seq<InstructionView>) -> Seq<InstructionView> {
        despawn_lowered(self.pool_slots@, self.when@, self.scope@, entity, out)
    }

    fn name(&self) -> (r: &'static str) {
        "physics.despawn"
    }

    fn lower_entity(&self, entity: u128, out: &mut Vec<Instruction>) {
        if !contains_id(&self.pool_slots, entity) {
            end(out);
            return ;
        }
        let sn: NameMap<usize> = self.scope.state_names_by_id.layout(entity);
        let slots: usize = past_of(expr_slot_span(&self.when, &sn));
        let slot_regs: Vec<u32> = read_slots(entity, slots, out);
        let mut refs = Refs::new();
        collect_refs(
            &self.when,
            &self.scope.entity_map,
            &self.scope.state_names_by_id,
            &mut refs,
        );
        let ref_regs: RegMap = read_keys(&refs.slots, out);
        let prop_regs: RegMap = read_keys(&refs.props, out);
        let mut next_id: u32 = fresh_reg(out);
        let locals: NameMap<u32> = NameMap::new();
        let parts = LowerParts {
            slot_regs: &slot_regs,
            ref_regs: &ref_regs,
            prop_regs: &prop_regs,
            state_names: &sn,
            scope: &self.scope,
            current_entity: entity,
        };
        let active: u32 = read_reg(entity, Component::Active, 0, &mut next_id, out);
        let w: u32 = lower_expr(&self.when, &parts.ctx(&locals), &mut next_id, out);
        let zero: u32 = bits_reg(ZERO, &mut next_id, out);
        let one: u32 = bits_reg(ONE, &mut next_id, out);
        let is_active: u32 = test_reg(Opcode::Ne, active, zero, &mut next_id, out);
        let active_flag: u32 = select(is_active, one, zero, &mut next_id, out);
        let holds: u32 = test_reg(Opcode::Ne, w, zero, &mut next_id, out);
        let when_flag: u32 = select(holds, one, zero, &mut next_id, out);
        let both: u32 = binary(Opcode::Mul, active_flag, when_flag, &mut next_id, out);
        let value: u32 = select(both, zero, active_flag, &mut next_id, out);
        write_reg(entity, Component::Active, 0, value, out);
        proof {
            assert(emit_state(next_id, out@).out == code(out@));
        }
        return_reg(out);
        proof {
            assert(emit_state(next_id, out@).out == code(out@));
        }
    }
}

} // verus!
