//! Programs: lists of systems lowered for lists of entities.

use crate::bodies::{
    kick, linear_lowered, nbody_lowered, row_views, DampingSystem, ForceSystem, GravitySystem,
    GroundContactSystem, IntegrateSystem, LinearSystem, NbodySystem, WallSystem,
};
use crate::chan::{recv_lowered, send_lowered, ChanOp, ChanSystem};
use crate::checks::{invariant_lowered, watch_lowered, InvariantSystem, WatchSystem};
use crate::eir::{
    code, fresh_module, functions_view, new_module, Component, ComponentView, EFFECT_WORLD,
    EirModule, Function, FunctionView, Instruction, InstructionView, Opcode, POS_Y, Real, VEL_Y,
    ZERO,
};
use crate::emit::{
    binary, bits_of, bits_reg, const_reg, effect_of, emit_effect, emit_state, fresh_reg, op_of,
    read_of, read_reg, resumed, test_of, test_reg, write_of, write_reg, Emit,
};
use crate::expr::{cond_view, stmt_views, ExprView, LetStmtView};
use crate::fields::{
    diffuse_lowered, name_view, poisson_lowered, wave_lowered, DiffuseSystem, PoissonSystem,
    WaveSystem, WaveView,
};
use crate::pools::{despawn_lowered, spawn_lowered, DespawnSystem, SpawnSystem, SpawnView};
use crate::rk4::{rk4_lowered, Rk4System};
use crate::rules::{contains_id, end, ended, only_view, EirSystem};
use crate::scope::{Layout, ScopeView};
use crate::update::{update_lowered, RulesView, UpdateSystem};
use vstd::prelude::*;

verus! {

/// Any of the systems.
pub enum System {
    Gravity(GravitySystem),
    Force(ForceSystem),
    Linear(LinearSystem),
    Integrate(IntegrateSystem),
    Damping(DampingSystem),
    GroundContact(GroundContactSystem),
    Wall(WallSystem),
    Nbody(NbodySystem),
    Chan(ChanSystem),
    Update(UpdateSystem),
    Rk4(Rk4System),
    Invariant(InvariantSystem),
    Watch(WatchSystem),
    Diffuse(DiffuseSystem),
    Poisson(PoissonSystem),
    Wave(WaveSystem),
    Spawn(SpawnSystem),
    Despawn(DespawnSystem),
}

/// The mathematical value of a [`System`].
pub enum SystemView {
    Gravity(GravitySystem),
    Force(ForceSystem),
    Linear { rows: Seq<Seq<u64>>, slots: usize, dt: u64 },
    Integrate(IntegrateSystem),
    Damping(DampingSystem),
    GroundContact(GroundContactSystem),
    Wall(WallSystem),
    Nbody { bodies: Seq<u128>, g: u64, dt: u64 },
    Send {
        channel: u128,
        value: Option<ExprView>,
        slots: usize,
        scope: ScopeView,
        state_names: Layout,
    },
    Recv { channel: u128, slot: usize, slots: usize },
    Update(RulesView),
    Rk4(RulesView),
    Invariant {
        expr: ExprView,
        lets: Seq<LetStmtView>,
        check_offset: u32,
        only: Option<Seq<u128>>,
        scope: ScopeView,
    },
    Watch { expr: ExprView, mem: usize, into: usize, only: Option<Seq<u128>>, scope: ScopeView },
    Diffuse {
        field: Seq<char>,
        rate: u64,
        width: u32,
        height: u32,
        depth: u32,
        run_on: u128,
    },
    Poisson {
        field: Seq<char>,
        source: Option<Seq<char>>,
        iters: u32,
        scale: u64,
        width: u32,
        height: u32,
        depth: u32,
        dx: u64,
        run_on: u128,
    },
    Wave(WaveView),
    Spawn(SpawnView),
    Despawn { pool_slots: Seq<u128>, when: ExprView, scope: ScopeView },
}

impl View for System {
    type V = SystemView;

    open spec fn view(&self) -> SystemView {
        match self {
            System::Gravity(s) => SystemView::Gravity(*s),
            System::Force(s) => SystemView::Force(*s),
            System::Linear(s) => SystemView::Linear {
                rows: row_views(s.rows@),
                slots: s.slots,
                dt: s.dt,
            },
            System::Integrate(s) => SystemView::Integrate(*s),
            System::Damping(s) => SystemView::Damping(*s),
            System::GroundContact(s) => SystemView::GroundContact(*s),
            System::Wall(s) => SystemView::Wall(*s),
            System::Nbody(s) => SystemView::Nbody { bodies: s.bodies@, g: s.g, dt: s.dt },
            System::Chan(s) => match s.op {
                ChanOp::Send => SystemView::Send {
                    channel: s.channel_entity,
                    value: cond_view(s.value),
                    slots: s.slots,
                    scope: s.scope@,
                    state_names: s.state_names@,
                },
                ChanOp::Recv => SystemView::Recv {
                    channel: s.channel_entity,
                    slot: s.slot,
                    slots: s.slots,
                },
            },
            System::Update(s) => SystemView::Update(s@),
            System::Rk4(s) => SystemView::Rk4(s@),
            System::Invariant(s) => SystemView::Invariant {
                expr: s.expr@,
                lets: stmt_views(s.lets@),
                check_offset: s.check_offset,
                only: only_view(s.only),
                scope: s.scope@,
            },
            System::Watch(s) => SystemView::Watch {
                expr: s.expr@,
                mem: s.mem,
                into: s.into,
                only: only_view(s.only),
                scope: s.scope@,
            },
            System::Diffuse(s) => SystemView::Diffuse {
                field: s.field@,
                rate: s.rate,
                width: s.width,
                height: s.height,
                depth: s.depth,
                run_on: s.run_on,
            },
            System::Poisson(s) => SystemView::Poisson {
                field: s.field@,
                source: name_view(s.source),
                iters: s.iters,
                scale: s.scale,
                width: s.width,
                height: s.height,
                depth: s.depth,
                dx: s.dx,
                run_on: s.run_on,
            },
            System::Wave(s) => SystemView::Wave(s@),
            System::Spawn(s) => SystemView::Spawn(s@),
            System::Despawn(s) => SystemView::Despawn {
                pool_slots: s.pool_slots@,
                when: s.when@,
                scope: s.scope@,
            },
        }
    }
}

/// The instructions of a system for one entity, behind those that are there.
pub open spec fn system_code(s: SystemView, entity: u128, out: Seq<InstructionView>) -> Seq<
    InstructionView,
> {
    match s {
        SystemView::Gravity(s) => s.lowered(entity, out),
        SystemView::Force(s) => s.lowered(entity, out),
        SystemView::Linear { rows, slots, dt } => linear_lowered(rows, slots, dt, entity, out),
        SystemView::Integrate(s) => s.lowered(entity, out),
        SystemView::Damping(s) => s.lowered(entity, out),
        SystemView::GroundContact(s) => s.lowered(entity, out),
        SystemView::Wall(s) => s.lowered(entity, out),
        SystemView::Nbody { bodies, g, dt } => nbody_lowered(bodies, g, dt, entity, out),
        SystemView::Send { channel, value, slots, scope, state_names } => send_lowered(
            channel,
            value,
            slots,
            scope,
            state_names,
            entity,
            out,
        ),
        SystemView::Recv { channel, slot, slots } => recv_lowered(
            channel,
            slot,
            slots,
            entity,
            out,
        ),
        SystemView::Update(u) => update_lowered(u, entity, out),
        SystemView::Rk4(u) => rk4_lowered(u, entity, out),
        SystemView::Invariant { expr, lets, check_offset, only, scope } => invariant_lowered(
            expr,
            lets,
            check_offset,
            only,
            scope,
            entity,
            out,
        ),
        SystemView::Watch { expr, mem, into, only, scope } => watch_lowered(
            expr,
            mem,
            into,
            only,
            scope,
            entity,
            out,
        ),
        SystemView::Diffuse { field, rate, width, run_on, .. } => diffuse_lowered(
            field,
            rate,
            width,
            run_on,
            entity,
            out,
        ),
        SystemView::Poisson { field, source, iters, scale, width, run_on, .. } => poisson_lowered(
            field,
            source,
            iters,
            scale,
            width,
            run_on,
            entity,
            out,
        ),
        SystemView::Wave(s) => wave_lowered(s, entity, out),
        SystemView::Spawn(s) => spawn_lowered(s, entity, out),
        SystemView::Despawn { pool_slots, when, scope } => despawn_lowered(
            pool_slots,
            when,
            scope,
            entity,
            out,
        ),
    }
}

/// The values of a sequence of systems.
pub open spec fn system_views(s: Seq<System>) -> Seq<SystemView> {
    s.map_values(|x: System| x@)
}

impl EirSystem for System {
    open spec fn title(&self) -> Seq<char> {
        match self {
            System::Gravity(s) => s.title(),
            System::Force(s) => s.title(),
            System::Linear(s) => s.title(),
            System::Integrate(s) => s.title(),
            System::Damping(s) => s.title(),
            System::GroundContact(s) => s.title(),
            System::Wall(s) => s.title(),
            System::Nbody(s) => s.title(),
            System::Chan(s) => s.title(),
            System::Update(s) => s.title(),
            System::Rk4(s) => s.title(),
            System::Invariant(s) => s.title(),
            System::Watch(s) => s.title(),
            System::Diffuse(s) => s.title(),
            System::Poisson(s) => s.title(),
            System::Wave(s) => s.title(),
            System::Spawn(s) => s.title(),
            System::Despawn(s) => s.title(),
        }
    }

    open spec fn lowered(&self, entity: u128, out: Seq<InstructionView>) -> Seq<InstructionView> {
        system_code(self@, entity, out)
    }

    fn name(&self) -> (r: &'static str) {
        match self {
            System::Gravity(s) => s.name(),
            System::Force(s) => s.name(),
            System::Linear(s) => s.name(),
            System::Integrate(s) => s.name(),
            System::Damping(s) => s.name(),
            System::GroundContact(s) => s.name(),
            System::Wall(s) => s.name(),
            System::Nbody(s) => s.name(),
            System::Chan(s) => s.name(),
            System::Update(s) => s.name(),
            System::Rk4(s) => s.name(),
            System::Invariant(s) => s.name(),
            System::Watch(s) => s.name(),
            System::Diffuse(s) => s.name(),
            System::Poisson(s) => s.name(),
            System::Wave(s) => s.name(),
            System::Spawn(s) => s.name(),
            System::Despawn(s) => s.name(),
        }
    }

    fn lower_entity(&self, entity: u128, out: &mut Vec<Instruction>) {
        match self {
            System::Gravity(s) => s.lower_entity(entity, out),
            System::Force(s) => s.lower_entity(entity, out),
            System::Linear(s) => s.lower_entity(entity, out),
            System::Integrate(s) => s.lower_entity(entity, out),
            System::Damping(s) => s.lower_entity(entity, out),
            System::GroundContact(s) => s.lower_entity(entity, out),
            System::Wall(s) => s.lower_entity(entity, out),
            System::Nbody(s) => s.lower_entity(entity, out),
            System::Chan(s) => s.lower_entity(entity, out),
            System::Update(s) => s.lower_entity(entity, out),
            System::Rk4(s) => s.lower_entity(entity, out),
            System::Invariant(s) => s.lower_entity(entity, out),
            System::Watch(s) => s.lower_entity(entity, out),
            System::Diffuse(s) => s.lower_entity(entity, out),
            System::Poisson(s) => s.lower_entity(entity, out),
            System::Wave(s) => s.lower_entity(entity, out),
            System::Spawn(s) => s.lower_entity(entity, out),
            System::Despawn(s) => s.lower_entity(entity, out),
        }
    }
}

/// A list of ids with one more, in front of the first greater one.
pub open spec fn id_insert(s: Seq<u128>, id: u128) -> Seq<u128>
    decreases s.len(),
{
    if s.len() == 0 {
        seq![id]
    } else if id < s[0] {
        seq![id] + s
    } else {
        seq![s[0]] + id_insert(s.drop_first(), id)
    }
}

/// The first `n` ids of a list in increasing order.
pub open spec fn ids_sorted(s: Seq<u128>, n: nat) -> Seq<u128>
    decreases n,
{
    if n == 0 || n > s.len() {
        Seq::empty()
    } else {
        id_insert(ids_sorted(s, (n - 1) as nat), s[n - 1])
    }
}

fn insert_id(ids: &mut Vec<u128>, id: u128)
    ensures
        final(ids)@ == id_insert(old(ids)@, id),
{
    let ghost before = ids@;
    let mut i: usize = 0;
    proof {
        assert(before.skip(0) =~= before);
        assert(before.take(0) + id_insert(before.skip(0), id) =~= id_insert(before, id));
    }
    while i < ids.len()
        invariant
            i <= ids.len(),
            ids@ == before,
            *ids == *old(ids),
            before.take(i as int) + id_insert(before.skip(i as int), id) == id_insert(before, id),
        decreases ids.len() - i,
    {
        let ghost rest = before.skip(i as int);
        proof {
            assert(rest.drop_first() =~= before.skip(i + 1));
        }
        if id < ids[i] {
            ids.insert(i, id);
            proof {
                assert(ids@ =~= before.take(i as int) + (seq![id] + rest));
            }
            return ;
        }
        proof {
            assert(before.take(i as int) + (seq![rest[0]] + id_insert(rest.drop_first(), id))
                =~= before.take(i + 1) + id_insert(rest.drop_first(), id));
        }
        i = i + 1;
    }
    ids.push(id);
    proof {
        assert(before.skip(i as int) =~= Seq::<u128>::empty());
        assert(ids@ =~= before.take(i as int) + seq![id]);
    }
}

/// Sorts a list of ids.
pub fn sort_ids(ids: &Vec<u128>) -> (r: Vec<u128>)
    ensures
        r@ == ids_sorted(ids@, ids@.len()),
{
    let mut r: Vec<u128> = Vec::new();
    let mut i: usize = 0;
    while i < ids.len()
        invariant
            i <= ids.len(),
            r@ == ids_sorted(ids@, i as nat),
        decreases ids.len() - i,
    {
        insert_id(&mut r, ids[i]);
        i = i + 1;
    }
    r
}

/// Whether an instruction list ends a function somewhere.
pub open spec fn ends(s: Seq<InstructionView>) -> bool {
    exists|i: int| 0 <= i < s.len() && (#[trigger] s[i]).opcode == Opcode::Return
}

/// Decides [`ends`].
pub fn has_return(out: &Vec<Instruction>) -> (r: bool)
    ensures
        r == ends(code(out@)),
{
    let mut i: usize = 0;
    while i < out.len()
        invariant
            i <= out.len(),
            forall|j: int| 0 <= j < i ==> (#[trigger] code(out@)[j]).opcode != Opcode::Return,
        decreases out.len() - i,
    {
        proof {
            assert(code(out@)[i as int] == out@[i as int]@);
        }
        if out[i].opcode == Opcode::Return {
            return true;
        }
        i = i + 1;
    }
    false
}

/// Whether a system is kept from the free slots of pools. A release is not: it has to
/// run on the slots that it is about to clear. Nor is a sweep over a field: the entity
/// that carries it has no part in it.
pub open spec fn guarding(system: SystemView) -> bool {
    match system {
        SystemView::Despawn { .. } => false,
        SystemView::Diffuse { .. } => false,
        SystemView::Poisson { .. } => false,
        SystemView::Wave(_) => false,
        _ => true,
    }
}

impl System {
    /// Decides [`guarding`].
    pub fn guards_pool_slots(&self) -> (r: bool)
        ensures
            r == guarding(self@),
    {
        match self {
            System::Despawn(s) => s.guards_pool_slots(),
            System::Diffuse(_) => false,
            System::Poisson(_) => false,
            System::Wave(_) => false,
            _ => true,
        }
    }
}

/// A branch that leaves the function where the entity is not active. Its targets are set
/// by [`guarded_code`].
pub open spec fn guard_of(entity: u128, s: Emit) -> (Emit, u32) {
    let (s, active) = read_of(s, entity, ComponentView::Active, 0);
    let (s, zero) = bits_of(s, ZERO);
    let (s, skip) = test_of(s, Opcode::Eq, seq![active, zero]);
    (effect_of(s, Opcode::CondBr, seq![skip, 0, 0], None), skip)
}

/// Code that ends, with the targets of the branch at an index set: to the end where its
/// condition holds, and to the next instruction where it does not.
pub open spec fn left_at(
    body: Seq<InstructionView>,
    skip: u32,
    at: int,
) -> Seq<InstructionView> {
    let both = ended(body);
    if 0 <= at < both.len() {
        both.update(
            at,
            InstructionView {
                operands: seq![skip, body.len() as u32, (at + 1) as u32],
                ..both[at]
            },
        )
    } else {
        both
    }
}

/// The function of a system for one entity. On a pool slot a system that is kept from
/// free slots returns at once where the activation flag is zero.
#[verifier::opaque]
pub open spec fn guarded_code(
    system: SystemView,
    entity: u128,
    pool_slots: Seq<u128>,
) -> Seq<InstructionView> {
    if guarding(system) && pool_slots.contains(entity) {
        let (s, skip) = guard_of(entity, resumed(Seq::empty()));
        left_at(system_code(system, entity, s.out), skip, s.out.len() - 1)
    } else {
        system_code(system, entity, Seq::empty())
    }
}

fn lower_function(system: &System, entity: u128, pool_slots: &Vec<u128>) -> (r: Vec<Instruction>)
    ensures
        code(r@) == guarded_code(system@, entity, pool_slots@),
{
    let mut out: Vec<Instruction> = Vec::new();
    proof {
        reveal(guarded_code);
        assert(code(out@) =~= Seq::<InstructionView>::empty());
    }
    if !(system.guards_pool_slots() && contains_id(pool_slots, entity)) {
        system.lower_entity(entity, &mut out);
        return out;
    }
    let mut next_id: u32 = fresh_reg(&out);
    let active: u32 = read_reg(entity, Component::Active, 0, &mut next_id, &mut out);
    let zero: u32 = bits_reg(ZERO, &mut next_id, &mut out);
    let skip: u32 = test_reg(Opcode::Eq, active, zero, &mut next_id, &mut out);
    let at: usize = out.len();
    let operands: Vec<u32> = vec![skip, 0, 0];
    proof {
        assert(operands@ =~= seq![skip, 0, 0]);
    }
    let ghost before = out@;
    emit_effect(Opcode::CondBr, operands, None, &mut out);
    proof {
        assert(code(out@).len() == code(before).len() + 1);
        assert(emit_state(next_id, out@).out == code(out@));
    }
    system.lower_entity(entity, &mut out);
    let target: usize = out.len();
    end(&mut out);
    let ghost both = out@;
    if at < out.len() {
        let operands: Vec<u32> = vec![skip, target as u32, (at + 1) as u32];
        proof {
            assert(operands@ =~= seq![skip, target as u32, (at + 1) as u32]);
        }
        out[at].operands = operands;
        proof {
            assert(code(out@) =~= code(both).update(at as int, out@[at as int]@));
        }
    }
    out
}

/// The functions so far with that of a system for one entity. Without an end the
/// system has nothing to do for the entity.
pub open spec fn with_entity(
    system: SystemView,
    entity: u128,
    pool_slots: Seq<u128>,
    functions: Seq<FunctionView>,
) -> Seq<FunctionView> {
    let instructions = guarded_code(system, entity, pool_slots);
    if ends(instructions) {
        functions.push(
            FunctionView {
                id: (functions.len() as u64).wrapping_add(1),
                effect_mask: EFFECT_WORLD,
                argument_count: 0,
                instructions,
            },
        )
    } else {
        functions
    }
}

/// The functions so far with those of a system for the first `n` entities.
pub open spec fn with_entities(
    system: SystemView,
    ids: Seq<u128>,
    n: nat,
    pool_slots: Seq<u128>,
    functions: Seq<FunctionView>,
) -> Seq<FunctionView>
    decreases n,
{
    if n == 0 || n > ids.len() {
        functions
    } else {
        with_entity(
            system,
            ids[n - 1],
            pool_slots,
            with_entities(system, ids, (n - 1) as nat, pool_slots, functions),
        )
    }
}

/// The functions of the first `n` systems: system by system, and within one in the
/// order of the entity ids. They are numbered from one on.
pub open spec fn program_functions(
    systems: Seq<SystemView>,
    n: nat,
    entities: Seq<u128>,
    pool_slots: Seq<u128>,
) -> Seq<FunctionView>
    decreases n,
{
    if n == 0 || n > systems.len() {
        Seq::empty()
    } else {
        let ids = ids_sorted(entities, entities.len());
        with_entities(
            systems[n - 1],
            ids,
            ids.len(),
            pool_slots,
            program_functions(systems, (n - 1) as nat, entities, pool_slots),
        )
    }
}

/// A set of systems that run in declaration order each step.
pub struct PhysicsProgram {
    pub systems: Vec<System>,
    pub entities: Vec<u128>,
    pub module: EirModule,
}

fn add_function(functions: &mut Vec<Function>, instructions: Vec<Instruction>)
    ensures
        functions_view(final(functions)@) == functions_view(old(functions)@).push(
            FunctionView {
                id: (old(functions)@.len() as u64).wrapping_add(1),
                effect_mask: EFFECT_WORLD,
                argument_count: 0,
                instructions: code(instructions@),
            },
        ),
{
    let id: u64 = (functions.len() as u64).wrapping_add(1);
    functions.push(Function { id, effect_mask: EFFECT_WORLD, argument_count: 0, instructions });
    proof {
        assert(functions_view(functions@) =~= functions_view(old(functions)@).push(
            functions@.last()@,
        ));
    }
}

impl PhysicsProgram {
    /// Lowers every system for every entity into one module.
    pub fn build(systems: Vec<System>, entities: Vec<u128>) -> (r: PhysicsProgram)
        ensures
            r.systems == systems,
            r.entities == entities,
            r.module@ == fresh_module(
                program_functions(
                    system_views(systems@),
                    systems@.len(),
                    entities@,
                    Seq::empty(),
                ),
            ),
    {
        let none: Vec<u128> = Vec::new();
        proof {
            assert(none@ =~= Seq::<u128>::empty());
        }
        PhysicsProgram::build_with_guards(systems, entities, &none)
    }

    /// Lowers every system for every entity into one module. On the pool slots the
    /// systems that are kept from free ones test the activation flag first.
    pub fn build_with_guards(
        systems: Vec<System>,
        entities: Vec<u128>,
        pool_slots: &Vec<u128>,
    ) -> (r: PhysicsProgram)
        ensures
            r.systems == systems,
            r.entities == entities,
            r.module@ == fresh_module(
                program_functions(
                    system_views(systems@),
                    systems@.len(),
                    entities@,
                    pool_slots@,
                ),
            ),
    {
        let ids: Vec<u128> = sort_ids(&entities);
        let ghost views = system_views(systems@);
        let mut functions: Vec<Function> = Vec::new();
        proof {
            assert(functions_view(functions@) =~= Seq::<FunctionView>::empty());
        }
        let mut i: usize = 0;
        while i < systems.len()
            invariant
                i <= systems.len(),
                ids@ == ids_sorted(entities@, entities@.len()),
                views == system_views(systems@),
                functions_view(functions@) == program_functions(
                    views,
                    i as nat,
                    entities@,
                    pool_slots@,
                ),
            decreases systems.len() - i,
        {
            let ghost before = functions_view(functions@);
            proof {
                assert(views[i as int] == systems@[i as int]@);
            }
            let mut k: usize = 0;
            while k < ids.len()
                invariant
                    i < systems.len(),
                    k <= ids.len(),
                    functions_view(functions@) == with_entities(
                        systems@[i as int]@,
                        ids@,
                        k as nat,
                        pool_slots@,
                        before,
                    ),
                decreases ids.len() - k,
            {
                let instructions: Vec<Instruction> = lower_function(
                    &systems[i],
                    ids[k],
                    pool_slots,
                );
                proof {
                    assert(functions_view(functions@).len() == functions@.len());
                }
                if has_return(&instructions) {
                    add_function(&mut functions, instructions);
                }
                k = k + 1;
            }
            i = i + 1;
        }
        PhysicsProgram { systems, entities, module: new_module(functions) }
    }
}

/// A module with one function per entity that applies gravity to the vertical
/// velocity and moves the height by it.
pub struct LoweredPhysics {
    pub module: EirModule,
    pub entities: Vec<u128>,
    /// Bits of the step length.
    pub dt: u64,
}

/// The instructions for one body: the velocity first, then the position with the
/// new velocity.
pub open spec fn fall(entity: u128, gravity_y: u64, dt: u64) -> Seq<InstructionView> {
    let s = kick(entity, VEL_Y, gravity_y, dt, Emit { next: 1, out: Seq::empty() });
    let (s, pos) = read_of(s, entity, ComponentView::Transform, POS_Y);
    let (s, vel) = read_of(s, entity, ComponentView::Velocity, VEL_Y);
    let (s, step) = bits_of(s, dt);
    let (s, moved) = op_of(s, Opcode::Mul, seq![vel, step]);
    let (s, new_pos) = op_of(s, Opcode::Add, seq![pos, moved]);
    ended(write_of(s, entity, ComponentView::Transform, POS_Y, new_pos).out)
}

/// The functions of the first `n` bodies, numbered from one on.
pub open spec fn fall_functions(entities: Seq<u128>, n: nat, gravity_y: u64, dt: u64) -> Seq<
    FunctionView,
>
    decreases n,
{
    if n == 0 || n > entities.len() {
        Seq::empty()
    } else {
        let before = fall_functions(entities, (n - 1) as nat, gravity_y, dt);
        before.push(
            FunctionView {
                id: (before.len() as u64).wrapping_add(1),
                effect_mask: EFFECT_WORLD,
                argument_count: 0,
                instructions: fall(entities[n - 1], gravity_y, dt),
            },
        )
    }
}

fn lower_fall(entity: u128, gravity_y: u64, dt: u64) -> (out: Vec<Instruction>)
    ensures
        code(out@) == fall(entity, gravity_y, dt),
{
    let mut out: Vec<Instruction> = Vec::new();
    let mut next: u32 = 1;
    proof {
        assert(code(out@) =~= Seq::<InstructionView>::empty());
    }
    let delta: u32 = const_reg(Real::Product(gravity_y, dt), &mut next, &mut out);
    let vel0: u32 = read_reg(entity, Component::Velocity, VEL_Y, &mut next, &mut out);
    let sum: u32 = binary(Opcode::Add, vel0, delta, &mut next, &mut out);
    write_reg(entity, Component::Velocity, VEL_Y, sum, &mut out);
    let pos: u32 = read_reg(entity, Component::Transform, POS_Y, &mut next, &mut out);
    let vel: u32 = read_reg(entity, Component::Velocity, VEL_Y, &mut next, &mut out);
    let step: u32 = bits_reg(dt, &mut next, &mut out);
    let moved: u32 = binary(Opcode::Mul, vel, step, &mut next, &mut out);
    let new_pos: u32 = binary(Opcode::Add, pos, moved, &mut next, &mut out);
    write_reg(entity, Component::Transform, POS_Y, new_pos, &mut out);
    proof {
        assert(emit_state(next, out@).out == code(out@));
    }
    end(&mut out);
    out
}

/// Lowers gravity and vertical motion for a list of bodies.
pub fn lower_physics(entities: &Vec<u128>, gravity_y: u64, dt: u64) -> (r: LoweredPhysics)
    ensures
        r.module@ == fresh_module(fall_functions(entities@, entities@.len(), gravity_y, dt)),
        r.entities@ == entities@,
        r.dt == dt,
{
    let mut functions: Vec<Function> = Vec::new();
    let mut lowered: Vec<u128> = Vec::new();
    proof {
        assert(functions_view(functions@) =~= Seq::<FunctionView>::empty());
    }
    let mut i: usize = 0;
    while i < entities.len()
        invariant
            i <= entities.len(),
            functions_view(functions@) == fall_functions(entities@, i as nat, gravity_y, dt),
            lowered@ == entities@.take(i as int),
        decreases entities.len() - i,
    {
        let out: Vec<Instruction> = lower_fall(entities[i], gravity_y, dt);
        proof {
            assert(functions_view(functions@).len() == functions@.len());
        }
        add_function(&mut functions, out);
        lowered.push(entities[i]);
        proof {
            assert(lowered@ =~= entities@.take(i + 1));
        }
        i = i + 1;
    }
    proof {
        assert(entities@.take(entities@.len() as int) =~= entities@);
    }
    LoweredPhysics { module: new_module(functions), entities: lowered, dt }
}

proof fn lemma_inserted(s: Seq<u128>, id: u128)
    requires
        increasing(s),
    ensures
        increasing(id_insert(s, id)),
        id_insert(s, id).to_multiset() == s.to_multiset().insert(id),
        s.len() > 0 && s[0] <= id ==> id_insert(s, id)[0] == s[0],
        id_insert(s, id).len() == s.len() + 1,
    decreases s.len(),
{
    broadcast use {vstd::multiset::group_multiset_axioms, vstd::seq_lib::group_to_multiset_ensures};

    let r = id_insert(s, id);
    if s.len() == 0 {
        assert(r =~= s.push(id));
    } else if id < s[0] {
        assert(s =~= r.drop_first());
        assert(r =~= seq![id] + s);
        vstd::seq_lib::lemma_multiset_commutative(seq![id], s);
        assert(seq![id] =~= Seq::<u128>::empty().push(id));
        assert(r.to_multiset() =~= s.to_multiset().insert(id));
    } else {
        let rest = s.drop_first();
        lemma_inserted(rest, id);
        let tail = id_insert(rest, id);
        vstd::seq_lib::lemma_multiset_commutative(seq![s[0]], tail);
        vstd::seq_lib::lemma_multiset_commutative(seq![s[0]], rest);
        assert(seq![s[0]] =~= Seq::<u128>::empty().push(s[0]));
        assert(s =~= seq![s[0]] + rest);
        assert(r.to_multiset() =~= s.to_multiset().insert(id));
        assert forall|i: int, j: int| 0 <= i <= j < r.len() implies #[trigger] r[i]
            <= #[trigger] r[j] by {
            if i == 0 && j > 0 {
                assert(tail[0] <= tail[j - 1]);
            } else if i > 0 {
                assert(tail[i - 1] <= tail[j - 1]);
            }
        }
    }
}

/// Whether ids are in increasing order.
pub open spec fn increasing(s: Seq<u128>) -> bool {
    forall|i: int, j: int| 0 <= i <= j < s.len() ==> #[trigger] s[i] <= #[trigger] s[j]
}

proof fn lemma_sorted(s: Seq<u128>, n: nat)
    requires
        n <= s.len(),
    ensures
        increasing(ids_sorted(s, n)),
        ids_sorted(s, n).to_multiset() == s.take(n as int).to_multiset(),
    decreases n,
{
    broadcast use {vstd::multiset::group_multiset_axioms, vstd::seq_lib::group_to_multiset_ensures};

    if n == 0 {
        assert(s.take(0) =~= Seq::<u128>::empty());
    } else {
        lemma_sorted(s, (n - 1) as nat);
        lemma_inserted(ids_sorted(s, (n - 1) as nat), s[n - 1]);
        assert(s.take(n as int) =~= s.take(n - 1).push(s[n - 1]));
    }
}

/// Sorted ids are the same ids, in increasing order.
pub proof fn law_sorting_keeps_ids(s: Seq<u128>)
    ensures
        increasing(ids_sorted(s, s.len())),
        ids_sorted(s, s.len()).to_multiset() == s.to_multiset(),
{
    lemma_sorted(s, s.len());
    assert(s.take(s.len() as int) =~= s);
}

/// A program does not depend on the order in which its entities are given.
pub proof fn law_entity_order_is_immaterial(
    systems: Seq<SystemView>,
    n: nat,
    a: Seq<u128>,
    b: Seq<u128>,
    pool_slots: Seq<u128>,
)
    requires
        a.to_multiset() == b.to_multiset(),
    ensures
        program_functions(systems, n, a, pool_slots) == program_functions(
            systems,
            n,
            b,
            pool_slots,
        ),
    decreases n,
{
    law_sorting_keeps_ids(a);
    law_sorting_keeps_ids(b);
    let leq = |x: u128, y: u128| x <= y;
    let x = ids_sorted(a, a.len());
    let y = ids_sorted(b, b.len());
    vstd::seq_lib::lemma_sorted_unique(x, y, leq);
    if n > 0 && n <= systems.len() {
        law_entity_order_is_immaterial(systems, (n - 1) as nat, a, b, pool_slots);
    }
}

} // verus!
