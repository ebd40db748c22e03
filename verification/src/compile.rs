//! Programs compiled: names resolved to ids, systems built, and everything lowered
//! into one module.

use crate::api::Error;
use crate::block::{lower_let_block, lower_stmts};
use crate::decl::{
    entity_views, field_views, func_views, text_views, vector_name, vector_of, EntityDecl,
    EntityView, FieldDecl, FieldView, FuncDecl, FuncView, ModelView, ParsedProgram, ProgramView,
    WorldModel,
};
use crate::diagnostics::{noted, DiagView, Diagnostics};
use crate::dims::{check_dimensions, dimension_check};
use crate::eir::{
    code, fresh_module, functions_view, new_module, EirModule, EirModuleView, Function,
    FunctionView, Instruction, InstructionView, Opcode,
};
use crate::emit::{effect_of, emit_effect, emit_state, Emit};
use crate::expr::{expr_has_query, has_query, stmts_have_query, stmts_query, LetStmt};
use crate::fault::{invalid, reject, Fault, FaultView};
use crate::kinds::{build_systems, systems_for};
use crate::lower::{lower_expr, lower_expr_spec};
use crate::names::{assoc_get, assoc_insert, law_insert_then_get, NameMap};
use crate::numbers::{Numbers, NumbersView};
use crate::parse::{parse, program_of};
use crate::program::{program_functions, system_views, PhysicsProgram, System, SystemView};
use crate::scope::{CtxView, Layout, Layouts, LowerParts, PartsView, RegMap, Scope, ScopeView};
use crate::stmts::{lets_of, to_let_stmts};
use crate::systems::{pool_slot_name, slot_name, Surroundings, SurroundingsView};
use vstd::prelude::*;
use vstd::string::*;

verus! {

/// Whether a declared entity moves.
pub open spec fn moves(e: EntityView) -> bool {
    e.dynamic != Some(false) && e.camera != Some(true)
}

/// The ids of the entities that move, among the first `k`. Ids count from one in
/// declaration order.
pub open spec fn moving_ids(entities: Seq<EntityView>, k: nat) -> Seq<u128>
    decreases k,
{
    if k == 0 || k > entities.len() {
        Seq::empty()
    } else {
        let ids = moving_ids(entities, (k - 1) as nat);
        if moves(entities[k - 1]) {
            ids.push(k as u128)
        } else {
            ids
        }
    }
}

/// Lists the entities that move.
pub fn dynamic_entity_ids(model: &WorldModel) -> (r: Vec<u128>)
    ensures
        r@ == moving_ids(model@.entities, model@.entities.len()),
{
    let ghost views = entity_views(model.entities@);
    let mut ids: Vec<u128> = Vec::new();
    let mut i: usize = 0;
    while i < model.entities.len()
        invariant
            i <= model.entities.len(),
            views == entity_views(model.entities@),
            ids@ == moving_ids(views, i as nat),
        decreases model.entities.len() - i,
    {
        let e: &EntityDecl = &model.entities[i];
        proof {
            assert(views[i as int] == e@);
        }
        let still: bool = match e.dynamic {
            Some(d) => !d,
            None => false,
        };
        let camera: bool = match e.camera {
            Some(c) => c,
            None => false,
        };
        if !still && !camera {
            ids.push((i as u128) + 1);
        }
        i = i + 1;
    }
    ids
}

/// The first id of the `p`-th pool: its slots follow the entities, the channels and
/// the slots of the pools before it.
pub open spec fn pool_base(model: ModelView, p: nat) -> nat
    decreases p,
{
    if p == 0 || p > model.pools.len() {
        model.entities.len() + model.channels.len() + 1
    } else {
        pool_base(model, (p - 1) as nat) + model.pools[p - 1].count as nat
    }
}

pub proof fn lemma_pool_base(model: ModelView, p: nat)
    requires
        p <= model.pools.len(),
    ensures
        pool_base(model, p) <= model.entities.len() + model.channels.len() + 1 + p * 0x1_0000_0000,
    decreases p,
{
    if p > 0 {
        lemma_pool_base(model, (p - 1) as nat);
    }
}

/// The names of the first `k` entities with their ids.
pub open spec fn body_ids(entities: Seq<EntityView>, k: nat) -> Seq<(Seq<char>, u128)>
    decreases k,
{
    if k == 0 || k > entities.len() {
        Seq::empty()
    } else {
        assoc_insert(body_ids(entities, (k - 1) as nat), entities[k - 1].name, k as u128)
    }
}

/// The names with those of the first `k` channels, whose ids follow the entities.
pub open spec fn channel_ids(model: ModelView, k: nat) -> Seq<(Seq<char>, u128)>
    decreases k,
{
    if k == 0 || k > model.channels.len() {
        body_ids(model.entities, model.entities.len())
    } else {
        assoc_insert(
            channel_ids(model, (k - 1) as nat),
            model.channels[k - 1].0,
            (model.entities.len() + k) as u128,
        )
    }
}

/// Names with those of the first `k` slots of a pool.
pub open spec fn with_slot_ids(
    ids: Seq<(Seq<char>, u128)>,
    pool: Seq<char>,
    base: nat,
    k: nat,
) -> Seq<(Seq<char>, u128)>
    decreases k,
{
    if k == 0 {
        ids
    } else {
        assoc_insert(
            with_slot_ids(ids, pool, base, (k - 1) as nat),
            slot_name(pool, (k - 1) as nat),
            (base + k - 1) as u128,
        )
    }
}

/// The names with those of the slots of the first `p` pools.
pub open spec fn entity_ids(model: ModelView, p: nat) -> Seq<(Seq<char>, u128)>
    decreases p,
{
    if p == 0 || p > model.pools.len() {
        channel_ids(model, model.channels.len())
    } else {
        with_slot_ids(
            entity_ids(model, (p - 1) as nat),
            model.pools[p - 1].name,
            pool_base(model, (p - 1) as nat),
            model.pools[p - 1].count as nat,
        )
    }
}

fn add_slot_ids(ids: &mut NameMap<u128>, pool: &str, base: u128, count: u32)
    requires
        base + count <= u128::MAX,
    ensures
        final(ids)@ == with_slot_ids(old(ids)@, pool@, base as nat, count as nat),
{
    let ghost start = ids@;
    let mut k: u32 = 0;
    while k < count
        invariant
            k <= count,
            base + count <= u128::MAX,
            ids@ == with_slot_ids(start, pool@, base as nat, k as nat),
        decreases count - k,
    {
        ids.insert(pool_slot_name(pool, k as u64), base + k as u128);
        k = k + 1;
    }
}

/// Gives every entity, channel and pool slot its id.
pub fn assign_ids(model: &WorldModel) -> (r: NameMap<u128>)
    ensures
        r@ == entity_ids(model@, model@.pools.len()),
{
    let mut ids: NameMap<u128> = NameMap::new();
    let ghost mv = model@;
    let bodies: u128 = model.entities.len() as u128;
    let mut i: usize = 0;
    while i < model.entities.len()
        invariant
            i <= model.entities.len(),
            mv == model@,
            ids@ == body_ids(mv.entities, i as nat),
        decreases model.entities.len() - i,
    {
        proof {
            assert(mv.entities[i as int] == model.entities@[i as int]@);
        }
        ids.insert(model.entities[i].name.clone(), (i as u128) + 1);
        i = i + 1;
    }
    let mut c: usize = 0;
    while c < model.channels.len()
        invariant
            c <= model.channels.len(),
            mv == model@,
            bodies == mv.entities.len(),
            bodies <= u64::MAX,
            ids@ == channel_ids(mv, c as nat),
        decreases model.channels.len() - c,
    {
        proof {
            assert(mv.channels[c as int] == (
                model.channels@[c as int].name@,
                model.channels@[c as int].value,
            ));
        }
        ids.insert(model.channels[c].name.clone(), bodies + (c as u128) + 1);
        c = c + 1;
    }
    let mut base: u128 = bodies + (model.channels.len() as u128) + 1;
    let mut p: usize = 0;
    while p < model.pools.len()
        invariant
            p <= model.pools.len(),
            mv == model@,
            mv.entities.len() <= u64::MAX,
            mv.channels.len() <= u64::MAX,
            base == pool_base(mv, p as nat),
            ids@ == entity_ids(mv, p as nat),
        decreases model.pools.len() - p,
    {
        proof {
            assert(mv.pools[p as int] == model.pools@[p as int]@);
            lemma_pool_base(mv, p as nat);
        }
        add_slot_ids(&mut ids, &model.pools[p].name, base, model.pools[p].count);
        base = base + model.pools[p].count as u128;
        p = p + 1;
    }
    ids
}

/// Ids with the first `k` of a run.
pub open spec fn with_run(ids: Seq<u128>, base: nat, k: nat) -> Seq<u128>
    decreases k,
{
    if k == 0 {
        ids
    } else {
        with_run(ids, base, (k - 1) as nat).push((base + k - 1) as u128)
    }
}

/// The ids that systems run on: the entities that move and the slots of the first
/// `p` pools.
pub open spec fn running_ids(model: ModelView, p: nat) -> Seq<u128>
    decreases p,
{
    if p == 0 || p > model.pools.len() {
        moving_ids(model.entities, model.entities.len())
    } else {
        with_run(
            running_ids(model, (p - 1) as nat),
            pool_base(model, (p - 1) as nat),
            model.pools[p - 1].count as nat,
        )
    }
}

fn running(model: &WorldModel) -> (r: Vec<u128>)
    ensures
        r@ == running_ids(model@, model@.pools.len()),
{
    let ghost mv = model@;
    let mut ids: Vec<u128> = dynamic_entity_ids(model);
    let mut base: u128 = (model.entities.len() as u128) + (model.channels.len() as u128) + 1;
    let mut p: usize = 0;
    while p < model.pools.len()
        invariant
            p <= model.pools.len(),
            mv == model@,
            mv.entities.len() <= u64::MAX,
            mv.channels.len() <= u64::MAX,
            base == pool_base(mv, p as nat),
            ids@ == running_ids(mv, p as nat),
        decreases model.pools.len() - p,
    {
        proof {
            assert(mv.pools[p as int] == model.pools@[p as int]@);
            lemma_pool_base(mv, p as nat);
        }
        let count: u32 = model.pools[p].count;
        add_run(&mut ids, base, count);
        base = base + count as u128;
        p = p + 1;
    }
    ids
}

/// The ids of the slots of the first `p` pools.
pub open spec fn slot_ids(model: ModelView, p: nat) -> Seq<u128>
    decreases p,
{
    if p == 0 || p > model.pools.len() {
        Seq::empty()
    } else {
        with_run(
            slot_ids(model, (p - 1) as nat),
            pool_base(model, (p - 1) as nat),
            model.pools[p - 1].count as nat,
        )
    }
}

fn pool_slots(model: &WorldModel) -> (r: Vec<u128>)
    ensures
        r@ == slot_ids(model@, model@.pools.len()),
{
    let ghost mv = model@;
    let mut ids: Vec<u128> = Vec::new();
    let mut base: u128 = (model.entities.len() as u128) + (model.channels.len() as u128) + 1;
    let mut p: usize = 0;
    while p < model.pools.len()
        invariant
            p <= model.pools.len(),
            mv == model@,
            mv.entities.len() <= u64::MAX,
            mv.channels.len() <= u64::MAX,
            base == pool_base(mv, p as nat),
            ids@ == slot_ids(mv, p as nat),
        decreases model.pools.len() - p,
    {
        proof {
            assert(mv.pools[p as int] == model.pools@[p as int]@);
            lemma_pool_base(mv, p as nat);
        }
        add_run(&mut ids, base, model.pools[p].count);
        base = base + model.pools[p].count as u128;
        p = p + 1;
    }
    ids
}

fn add_run(ids: &mut Vec<u128>, base: u128, count: u32)
    requires
        base + count <= u128::MAX,
    ensures
        final(ids)@ == with_run(old(ids)@, base as nat, count as nat),
{
    let ghost start = ids@;
    let mut k: u32 = 0;
    while k < count
        invariant
            k <= count,
            base + count <= u128::MAX,
            ids@ == with_run(start, base as nat, k as nat),
        decreases count - k,
    {
        ids.push(base + k as u128);
        k = k + 1;
    }
}

/// The ids, among the first `k`, of entities that attract each other: not those that
/// opt out, and never pool slots.
pub open spec fn attracting(entities: Seq<EntityView>, ids: Seq<u128>, k: nat) -> Seq<u128>
    decreases k,
{
    if k == 0 || k > ids.len() {
        Seq::empty()
    } else {
        let found = attracting(entities, ids, (k - 1) as nat);
        let id = ids[k - 1];
        if 1 <= id <= entities.len() && entities[id - 1].nbody != Some(false) {
            found.push(id)
        } else {
            found
        }
    }
}

fn attractors(entities: &Vec<EntityDecl>, ids: &Vec<u128>) -> (r: Vec<u128>)
    ensures
        r@ == attracting(entity_views(entities@), ids@, ids@.len()),
{
    let ghost views = entity_views(entities@);
    let mut found: Vec<u128> = Vec::new();
    let mut i: usize = 0;
    while i < ids.len()
        invariant
            i <= ids.len(),
            views == entity_views(entities@),
            found@ == attracting(views, ids@, i as nat),
        decreases ids.len() - i,
    {
        let id: u128 = ids[i];
        if 1 <= id && id <= entities.len() as u128 {
            let e: &EntityDecl = &entities[(id - 1) as usize];
            proof {
                assert(views[id - 1] == e@);
            }
            let out: bool = match e.nbody {
                Some(n) => !n,
                None => false,
            };
            if !out {
                found.push(id);
            }
        }
        i = i + 1;
    }
    found
}

/// The first id of a declared function: the functions of systems count from one and
/// stay below.
pub const FUNC_BASE: u64 = 0xF000_0000;

/// The names of the first `k` functions with their ids.
pub open spec fn function_ids(funcs: Seq<FuncView>, k: nat) -> Seq<(Seq<char>, u64)>
    decreases k,
{
    if k == 0 || k > funcs.len() {
        Seq::empty()
    } else {
        assoc_insert(
            function_ids(funcs, (k - 1) as nat),
            funcs[k - 1].name,
            FUNC_BASE.wrapping_add((k - 1) as u64),
        )
    }
}

fn assign_functions(funcs: &Vec<FuncDecl>) -> (r: NameMap<u64>)
    ensures
        r@ == function_ids(func_views(funcs@), funcs@.len()),
{
    let ghost views = func_views(funcs@);
    let mut ids: NameMap<u64> = NameMap::new();
    let mut i: usize = 0;
    while i < funcs.len()
        invariant
            i <= funcs.len(),
            views == func_views(funcs@),
            ids@ == function_ids(views, i as nat),
        decreases funcs.len() - i,
    {
        proof {
            assert(views[i as int] == funcs@[i as int]@);
        }
        ids.insert(funcs[i].name.clone(), FUNC_BASE.wrapping_add(i as u64));
        i = i + 1;
    }
    ids
}

/// The named slots among the first `k`. The name of a vector is that of its first
/// component.
pub open spec fn layout_from(names: Seq<Option<Seq<char>>>, k: nat) -> Layout
    decreases k,
{
    if k == 0 || k > names.len() {
        Seq::empty()
    } else {
        match names[k - 1] {
            Some(n) => {
                let named = assoc_insert(
                    layout_from(names, (k - 1) as nat),
                    n,
                    (k - 1) as usize,
                );
                match vector_name(n) {
                    Some(v) => assoc_insert(named, v, (k - 1) as usize),
                    None => named,
                }
            },
            None => layout_from(names, (k - 1) as nat),
        }
    }
}

/// The named slots of a declared entity.
pub open spec fn declared_layout(e: EntityView) -> Layout {
    match e.state_names {
        Some(names) => layout_from(names, names.len()),
        None => Seq::empty(),
    }
}

fn read_layout(e: &EntityDecl) -> (r: NameMap<usize>)
    ensures
        r@ == declared_layout(e@),
{
    let mut map: NameMap<usize> = NameMap::new();
    match &e.state_names {
        None => {},
        Some(names) => {
            let ghost views = crate::decl::slot_names(names@);
            let mut i: usize = 0;
            while i < names.len()
                invariant
                    i <= names.len(),
                    views == crate::decl::slot_names(names@),
                    map@ == layout_from(views, i as nat),
                decreases names.len() - i,
            {
                proof {
                    assert(views[i as int] == crate::fault::text_view(names@[i as int]));
                }
                match &names[i] {
                    Some(n) => {
                        map.insert(n.clone(), i);
                        if let Some(v) = vector_of(n) {
                            map.insert(v, i);
                        }
                    },
                    None => {},
                }
                i = i + 1;
            }
        },
    }
    map
}

/// The layouts of the first `k` entities that name slots.
pub open spec fn body_layouts(entities: Seq<EntityView>, k: nat) -> Seq<(u128, Layout)>
    decreases k,
{
    if k == 0 || k > entities.len() {
        Seq::empty()
    } else {
        let found = body_layouts(entities, (k - 1) as nat);
        let l = declared_layout(entities[k - 1]);
        if l.len() > 0 {
            found.push((k as u128, l))
        } else {
            found
        }
    }
}

/// Layouts with one shared by the first `k` ids of a run.
pub open spec fn with_shared(
    layouts: Seq<(u128, Layout)>,
    l: Layout,
    base: nat,
    k: nat,
) -> Seq<(u128, Layout)>
    decreases k,
{
    if k == 0 {
        layouts
    } else {
        with_shared(layouts, l, base, (k - 1) as nat).push(((base + k - 1) as u128, l))
    }
}

/// The layouts with those of the slots of the first `p` pools, which share that of
/// their pool.
pub open spec fn all_layouts(model: ModelView, p: nat) -> Seq<(u128, Layout)>
    decreases p,
{
    if p == 0 || p > model.pools.len() {
        body_layouts(model.entities, model.entities.len())
    } else {
        let before = all_layouts(model, (p - 1) as nat);
        let l = declared_layout(model.pools[p - 1].decl);
        if l.len() > 0 {
            with_shared(
                before,
                l,
                pool_base(model, (p - 1) as nat),
                model.pools[p - 1].count as nat,
            )
        } else {
            before
        }
    }
}

fn add_shared(layouts: &mut Layouts, map: &NameMap<usize>, base: u128, count: u32)
    requires
        base + count <= u128::MAX,
    ensures
        final(layouts)@ == with_shared(old(layouts)@, map@, base as nat, count as nat),
{
    let ghost start = layouts@;
    let mut k: u32 = 0;
    while k < count
        invariant
            k <= count,
            base + count <= u128::MAX,
            layouts@ == with_shared(start, map@, base as nat, k as nat),
        decreases count - k,
    {
        let ghost before = layouts@;
        layouts.entries.push((base + k as u128, map.duplicate()));
        proof {
            assert(layouts@ =~= before.push(((base + k) as u128, map@)));
        }
        k = k + 1;
    }
}

fn read_layouts(model: &WorldModel) -> (r: Layouts)
    ensures
        r@ == all_layouts(model@, model@.pools.len()),
{
    let ghost mv = model@;
    let mut layouts = Layouts::new();
    let mut i: usize = 0;
    while i < model.entities.len()
        invariant
            i <= model.entities.len(),
            mv == model@,
            layouts@ == body_layouts(mv.entities, i as nat),
        decreases model.entities.len() - i,
    {
        let ghost before = layouts@;
        proof {
            assert(mv.entities[i as int] == model.entities@[i as int]@);
        }
        let map: NameMap<usize> = read_layout(&model.entities[i]);
        if map.entries.len() > 0 {
            let ghost l = map@;
            layouts.entries.push(((i as u128) + 1, map));
            proof {
                assert(layouts@ =~= before.push(((i + 1) as u128, l)));
            }
        }
        i = i + 1;
    }
    let mut base: u128 = (model.entities.len() as u128) + (model.channels.len() as u128) + 1;
    let mut p: usize = 0;
    while p < model.pools.len()
        invariant
            p <= model.pools.len(),
            mv == model@,
            mv.entities.len() <= u64::MAX,
            mv.channels.len() <= u64::MAX,
            base == pool_base(mv, p as nat),
            layouts@ == all_layouts(mv, p as nat),
        decreases model.pools.len() - p,
    {
        proof {
            assert(mv.pools[p as int] == model.pools@[p as int]@);
            lemma_pool_base(mv, p as nat);
        }
        let map: NameMap<usize> = read_layout(&model.pools[p].decl);
        if map.entries.len() > 0 {
            add_shared(&mut layouts, &map, base, model.pools[p].count);
        }
        base = base + model.pools[p].count as u128;
        p = p + 1;
    }
    layouts
}

/// The sizes of the first `k` fields.
pub open spec fn field_sizes(fields: Seq<FieldView>, k: nat) -> Seq<
    (Seq<char>, (u32, u32, u32, u64)),
>
    decreases k,
{
    if k == 0 || k > fields.len() {
        Seq::empty()
    } else {
        let f = fields[k - 1];
        assoc_insert(
            field_sizes(fields, (k - 1) as nat),
            f.name,
            (f.width as u32, f.height as u32, f.depth as u32, f.dx),
        )
    }
}

/// The widths and heights of the first `k` fields.
pub open spec fn field_areas(fields: Seq<FieldView>, k: nat) -> Seq<(Seq<char>, (u32, u32))>
    decreases k,
{
    if k == 0 || k > fields.len() {
        Seq::empty()
    } else {
        let f = fields[k - 1];
        assoc_insert(
            field_areas(fields, (k - 1) as nat),
            f.name,
            (f.width as u32, f.height as u32),
        )
    }
}

fn read_fields(fields: &Vec<FieldDecl>) -> (r: (
    NameMap<(u32, u32, u32, u64)>,
    NameMap<(u32, u32)>,
))
    ensures
        r.0@ == field_sizes(field_views(fields@), fields@.len()),
        r.1@ == field_areas(field_views(fields@), fields@.len()),
{
    let ghost views = field_views(fields@);
    let mut sizes: NameMap<(u32, u32, u32, u64)> = NameMap::new();
    let mut areas: NameMap<(u32, u32)> = NameMap::new();
    let mut i: usize = 0;
    while i < fields.len()
        invariant
            i <= fields.len(),
            views == field_views(fields@),
            sizes@ == field_sizes(views, i as nat),
            areas@ == field_areas(views, i as nat),
        decreases fields.len() - i,
    {
        let f: &FieldDecl = &fields[i];
        proof {
            assert(views[i as int] == f@);
        }
        sizes.insert(
            f.name.clone(),
            (f.width as u32, f.height as u32, f.depth as u32, f.dx),
        );
        areas.insert(f.name.clone(), (f.width as u32, f.height as u32));
        i = i + 1;
    }
    (sizes, areas)
}

/// The names of parameters.
pub open spec fn names_only(params: Seq<(Seq<char>, u64)>) -> Seq<(Seq<char>, ())> {
    params.map_values(|p: (Seq<char>, u64)| (p.0, ()))
}

fn read_names(params: &NameMap<u64>) -> (r: NameMap<()>)
    ensures
        r@ == names_only(params@),
{
    let mut entries: Vec<(String, ())> = Vec::new();
    let mut i: usize = 0;
    while i < params.entries.len()
        invariant
            i <= params.entries.len(),
            entries@.len() == i,
            forall|k: int| 0 <= k < i ==> (#[trigger] entries@[k]).0@ == params.entries@[k].0@,
        decreases params.entries.len() - i,
    {
        entries.push((params.entries[i].0.clone(), ()));
        i = i + 1;
    }
    let r = NameMap { entries };
    proof {
        assert(r@ =~= names_only(params@));
    }
    r
}

/// The names of a whole program.
pub open spec fn program_scope(p: ProgramView) -> ScopeView {
    ScopeView {
        entity_map: entity_ids(p.model, p.model.pools.len()),
        state_names_by_id: all_layouts(p.model, p.model.pools.len()),
        func_ids: function_ids(p.funcs, p.funcs.len()),
        field_dims: field_areas(p.model.fields, p.model.fields.len()),
        namespace: ""@,
        param_names: names_only(p.model.params),
    }
}

/// What the systems of a program are resolved against.
pub open spec fn program_surroundings(p: ProgramView) -> SurroundingsView {
    let ids = running_ids(p.model, p.model.pools.len());
    SurroundingsView {
        scope: program_scope(p),
        nbody_bodies: attracting(p.model.entities, ids, ids.len()),
        field_info: field_sizes(p.model.fields, p.model.fields.len()),
        dynamic: ids,
    }
}

/// The registers of the first `n` arguments, from one on.
pub open spec fn argument_regs(n: nat) -> Seq<u32> {
    Seq::new(n, |i: int| (i + 1) as u32)
}

/// The first `k` parameters with their registers.
pub open spec fn argument_names(params: Seq<Seq<char>>, k: nat) -> Seq<(Seq<char>, u32)>
    decreases k,
{
    if k == 0 || k > params.len() {
        Seq::empty()
    } else {
        assoc_insert(argument_names(params, (k - 1) as nat), params[k - 1], k as u32)
    }
}

/// What a function body sees: functions and parameters, but no entities and no
/// fields.
pub open spec fn function_scope(scope: ScopeView, f: FuncView) -> ScopeView {
    ScopeView {
        entity_map: Seq::empty(),
        state_names_by_id: Seq::empty(),
        func_ids: scope.func_ids,
        field_dims: Seq::empty(),
        namespace: f.namespace,
        param_names: scope.param_names,
    }
}

/// The lowered body of a function whose statements are resolved. The parameters are
/// bound by name and as the leading slots.
pub open spec fn function_code(
    f: FuncView,
    lets: Seq<crate::expr::LetStmtView>,
    scope: ScopeView,
) -> Seq<InstructionView> {
    let argc = f.params.len() as u32;
    let parts = PartsView {
        slot_regs: argument_regs(argc as nat),
        ref_regs: Seq::empty(),
        prop_regs: Seq::empty(),
        state_names: Seq::empty(),
        scope: function_scope(scope, f),
        current_entity: 0,
    };
    let b = lower_stmts(
        lets,
        lets.len(),
        None,
        parts,
        Emit { next: argc.wrapping_add(1), out: Seq::empty() },
        argument_names(f.params, argc as nat),
    );
    let (s, r) = lower_expr_spec(f.body, CtxView { parts, locals: b.locals }, b.s);
    effect_of(s, Opcode::Return, seq![r], None).out
}

/// The compiled function; spatial queries have no entity to run for there.
pub open spec fn function_of(
    n: NumbersView,
    f: FuncView,
    i: nat,
    scope: ScopeView,
) -> Result<FunctionView, FaultView> {
    match lets_of(n, f.stmts, f.stmts.len()) {
        Err(e) => Err(e),
        Ok(lets) => if has_query(f.body) || stmts_query(lets) {
            Err(invalid(70))
        } else {
            Ok(
                FunctionView {
                    id: FUNC_BASE.wrapping_add(i as u64),
                    effect_mask: 0,
                    argument_count: f.params.len() as u32,
                    instructions: function_code(f, lets, scope),
                },
            )
        },
    }
}

fn argument_locals(params: &Vec<String>, argc: u32) -> (r: NameMap<u32>)
    requires
        argc <= params@.len(),
    ensures
        r@ == argument_names(text_views(params@), argc as nat),
{
    let ghost views = text_views(params@);
    let mut map: NameMap<u32> = NameMap::new();
    let mut i: u32 = 0;
    while i < argc
        invariant
            i <= argc,
            argc <= params@.len(),
            views == text_views(params@),
            map@ == argument_names(views, i as nat),
        decreases argc - i,
    {
        proof {
            assert(views[i as int] == params@[i as int]@);
        }
        map.insert(params[i as usize].clone(), i + 1);
        i = i + 1;
    }
    map
}

fn compile_function(numbers: &Numbers, f: &FuncDecl, i: usize, scope: &Scope) -> (r: Result<
    Function,
    Fault,
>)
    ensures
        function_of(numbers@, f@, i as nat, scope@) == (match r {
            Ok(x) => Ok(x@),
            Err(e) => Err(e@),
        }),
{
    let argc: u32 = f.params.len() as u32;
    let lets: Vec<LetStmt> = match to_let_stmts(numbers, &f.stmts) {
        Ok(l) => l,
        Err(e) => return Err(e),
    };
    if expr_has_query(&f.body) || stmts_have_query(&lets) {
        return Err(reject(70));
    }
    let mut slot_regs: Vec<u32> = Vec::new();
    let mut p: u32 = 0;
    while p < argc
        invariant
            p <= argc,
            slot_regs@.len() == p,
            forall|k: int| 0 <= k < p ==> #[trigger] slot_regs@[k] == k + 1,
        decreases argc - p,
    {
        slot_regs.push(p + 1);
        p = p + 1;
    }
    let none = RegMap::new();
    let no_names: NameMap<usize> = NameMap::new();
    let inner = Scope {
        entity_map: NameMap::new(),
        state_names_by_id: Layouts::new(),
        func_ids: scope.func_ids.duplicate(),
        field_dims: NameMap::new(),
        namespace: f.namespace.clone(),
        param_names: scope.param_names.duplicate(),
    };
    let parts = LowerParts {
        slot_regs: &slot_regs,
        ref_regs: &none,
        prop_regs: &none,
        state_names: &no_names,
        scope: &inner,
        current_entity: 0,
    };
    proof {
        assert(slot_regs@ =~= argument_regs(argc as nat));
        assert(parts@.scope == function_scope(scope@, f@));
    }
    let mut locals: NameMap<u32> = argument_locals(&f.params, argc);
    let mut next_id: u32 = argc.wrapping_add(1);
    let mut out: Vec<Instruction> = Vec::new();
    proof {
        assert(code(out@) =~= Seq::<InstructionView>::empty());
    }
    let _ = lower_let_block(&lets, None, &mut next_id, &mut out, &mut locals, &parts);
    let ret: u32 = lower_expr(&f.body, &parts.ctx(&locals), &mut next_id, &mut out);
    let operands: Vec<u32> = vec![ret];
    proof {
        assert(operands@ =~= seq![ret]);
    }
    let ghost before = emit_state(next_id, out@);
    emit_effect(Opcode::Return, operands, None, &mut out);
    proof {
        assert(emit_state(next_id, out@) == effect_of(before, Opcode::Return, seq![ret], None));
    }
    Ok(
        Function {
            id: FUNC_BASE.wrapping_add(i as u64),
            effect_mask: 0,
            argument_count: argc,
            instructions: out,
        },
    )
}

/// Functions with the first `k` declared ones.
pub open spec fn with_declared(
    n: NumbersView,
    base: Seq<FunctionView>,
    funcs: Seq<FuncView>,
    scope: ScopeView,
    k: nat,
) -> Result<Seq<FunctionView>, FaultView>
    decreases k,
{
    if k == 0 || k > funcs.len() {
        Ok(base)
    } else {
        match with_declared(n, base, funcs, scope, (k - 1) as nat) {
            Err(e) => Err(e),
            Ok(done) => match function_of(n, funcs[k - 1], (k - 1) as nat, scope) {
                Err(e) => Err(e),
                Ok(f) => Ok(done.push(f)),
            },
        }
    }
}

proof fn lemma_declared_fail(
    n: NumbersView,
    base: Seq<FunctionView>,
    funcs: Seq<FuncView>,
    scope: ScopeView,
    k: nat,
    e: FaultView,
)
    requires
        0 < k <= funcs.len(),
        with_declared(n, base, funcs, scope, k) == Err::<Seq<FunctionView>, FaultView>(e),
    ensures
        with_declared(n, base, funcs, scope, funcs.len()) == Err::<Seq<FunctionView>, FaultView>(e),
    decreases funcs.len() - k,
{
    if k < funcs.len() {
        lemma_declared_fail(n, base, funcs, scope, k + 1, e);
    }
}

fn add_declared(
    numbers: &Numbers,
    funcs: &Vec<FuncDecl>,
    scope: &Scope,
    functions: &mut Vec<Function>,
) -> (r: Option<Fault>)
    ensures
        with_declared(
            numbers@,
            functions_view(old(functions)@),
            func_views(funcs@),
            scope@,
            funcs@.len(),
        ) == (match r {
            None => Ok(functions_view(final(functions)@)),
            Some(e) => Err(e@),
        }),
{
    let ghost base = functions_view(functions@);
    let ghost views = func_views(funcs@);
    let mut i: usize = 0;
    while i < funcs.len()
        invariant
            i <= funcs.len(),
            base == functions_view(old(functions)@),
            views == func_views(funcs@),
            with_declared(numbers@, base, views, scope@, i as nat) == Ok::<
                Seq<FunctionView>,
                FaultView,
            >(functions_view(functions@)),
        decreases funcs.len() - i,
    {
        let ghost before = functions_view(functions@);
        proof {
            assert(views[i as int] == funcs@[i as int]@);
        }
        match compile_function(numbers, &funcs[i], i, scope) {
            Err(e) => {
                proof {
                    lemma_declared_fail(numbers@, base, views, scope@, (i + 1) as nat, e@);
                }
                return Some(e);
            },
            Ok(f) => {
                let ghost fv = f@;
                functions.push(f);
                proof {
                    assert(functions_view(functions@) =~= before.push(fv));
                }
            },
        }
        i = i + 1;
    }
    None
}

/// A compiled program: what was declared, the systems with their functions, and the
/// module that holds the declared functions as well.
pub struct CompiledProgram {
    pub parsed: ParsedProgram,
    pub program: PhysicsProgram,
    pub eir: EirModule,
}

/// The mathematical value of a [`CompiledProgram`].
pub struct CompiledView {
    pub parsed: ProgramView,
    pub systems: Seq<SystemView>,
    pub entities: Seq<u128>,
    /// The module of the systems alone.
    pub module: EirModuleView,
    pub eir: EirModuleView,
}

impl View for CompiledProgram {
    type V = CompiledView;

    open spec fn view(&self) -> CompiledView {
        CompiledView {
            parsed: self.parsed@,
            systems: system_views(self.program.systems@),
            entities: self.program.entities@,
            module: self.program.module@,
            eir: self.eir@,
        }
    }
}

/// A checked program compiled: its systems first, then its functions.
pub open spec fn lowered_program(n: NumbersView, p: ProgramView) -> Result<
    CompiledView,
    FaultView,
> {
    let env = program_surroundings(p);
    match systems_for(n, env, p.systems, p.systems.len()) {
        Err(e) => Err(e),
        Ok(systems) => {
            let base = program_functions(
                systems,
                systems.len(),
                env.dynamic,
                slot_ids(p.model, p.model.pools.len()),
            );
            match with_declared(n, base, p.funcs, env.scope, p.funcs.len()) {
                Err(e) => Err(e),
                Ok(functions) => Ok(
                    CompiledView {
                        parsed: p,
                        systems,
                        entities: env.dynamic,
                        module: fresh_module(base),
                        eir: fresh_module(functions),
                    },
                ),
            }
        },
    }
}

/// The outcome of a compile: the program or the error, and the log.
pub struct Compiled {
    pub result: Result<CompiledView, Error>,
    pub log: Seq<DiagView>,
}

/// The outcome for a fault: its error, with its message in the log.
pub open spec fn failed(log: Seq<DiagView>, f: FaultView) -> Compiled {
    Compiled { result: Err(f.error), log: noted(log, f) }
}

/// The outcome of compiling a parsed program: the units are checked first.
pub open spec fn compiled_program(n: NumbersView, p: ProgramView, log: Seq<DiagView>) -> Compiled {
    let checked = dimension_check(n, p, log);
    match checked.fault {
        Some(f) => failed(checked.log, f),
        None => match lowered_program(n, p) {
            Err(f) => failed(checked.log, f),
            Ok(c) => Compiled { result: Ok(c), log: checked.log },
        },
    }
}

/// The outcome of compiling a source.
pub open spec fn compiled(n: NumbersView, source: Seq<char>, log: Seq<DiagView>) -> Compiled {
    match program_of(n, source) {
        Err(f) => failed(log, f),
        Ok(p) => compiled_program(n, p, log),
    }
}

/// The view of a compile result.
pub open spec fn compiled_result(r: Result<CompiledProgram, Error>) -> Result<CompiledView, Error> {
    match r {
        Ok(c) => Ok(c@),
        Err(e) => Err(e),
    }
}

pub fn copy_functions(functions: &Vec<Function>) -> (r: Vec<Function>)
    ensures
        functions_view(r@) == functions_view(functions@),
{
    let mut copies: Vec<Function> = Vec::new();
    let mut i: usize = 0;
    while i < functions.len()
        invariant
            i <= functions.len(),
            copies@.len() == i,
            forall|k: int| 0 <= k < i ==> (#[trigger] copies@[k])@ == functions@[k]@,
        decreases functions.len() - i,
    {
        copies.push(functions[i].duplicate());
        i = i + 1;
    }
    proof {
        assert(functions_view(copies@) =~= functions_view(functions@));
    }
    copies
}

fn lower_program(numbers: &Numbers, parsed: ParsedProgram) -> (r: Result<CompiledProgram, Fault>)
    ensures
        lowered_program(numbers@, parsed@) == (match r {
            Ok(c) => Ok(c@),
            Err(e) => Err(e@),
        }),
{
    let (field_info, field_dims) = read_fields(&parsed.model.fields);
    let scope = Scope {
        entity_map: assign_ids(&parsed.model),
        state_names_by_id: read_layouts(&parsed.model),
        func_ids: assign_functions(&parsed.funcs),
        field_dims,
        namespace: "".to_owned(),
        param_names: read_names(&parsed.model.params),
    };
    let entities: Vec<u128> = running(&parsed.model);
    let nbody: Vec<u128> = attractors(&parsed.model.entities, &entities);
    let env = Surroundings {
        scope: &scope,
        nbody_bodies: &nbody,
        field_info: &field_info,
        dynamic: &entities,
    };
    proof {
        assert(scope@ == program_scope(parsed@));
        assert(env@ == program_surroundings(parsed@));
    }
    let systems: Vec<System> = match build_systems(numbers, &parsed.systems, &env) {
        Ok(s) => s,
        Err(e) => return Err(e),
    };
    let slots: Vec<u128> = pool_slots(&parsed.model);
    let program: PhysicsProgram = PhysicsProgram::build_with_guards(systems, entities, &slots);
    let mut functions: Vec<Function> = copy_functions(&program.module.functions);
    match add_declared(numbers, &parsed.funcs, &scope, &mut functions) {
        Some(e) => return Err(e),
        None => {},
    }
    let eir: EirModule = new_module(functions);
    Ok(CompiledProgram { parsed, program, eir })
}

/// Compiles a parsed program. The message of a failure goes to the log.
pub fn compile_program(numbers: &Numbers, parsed: ParsedProgram, log: &mut Diagnostics) -> (r: Result<
    CompiledProgram,
    Error,
>)
    ensures
        compiled_program(numbers@, parsed@, old(log)@) == (Compiled {
            result: compiled_result(r),
            log: final(log)@,
        }),
{
    match check_dimensions(numbers, &parsed, log) {
        Some(f) => {
            let e: Error = f.error;
            log.note(f);
            return Err(e);
        },
        None => {},
    }
    match lower_program(numbers, parsed) {
        Ok(c) => Ok(c),
        Err(f) => {
            let e: Error = f.error;
            log.note(f);
            Err(e)
        },
    }
}

/// Compiles a source: parses it, builds its systems, and lowers them. The message of
/// a failure goes to the log.
pub fn compile(numbers: &Numbers, source: &str, log: &mut Diagnostics) -> (r: Result<
    CompiledProgram,
    Error,
>)
    ensures
        compiled(numbers@, source@, old(log)@) == (Compiled {
            result: compiled_result(r),
            log: final(log)@,
        }),
{
    match parse(source, numbers) {
        Ok(p) => compile_program(numbers, p, log),
        Err(f) => {
            let e: Error = f.error;
            log.note(f);
            Err(e)
        },
    }
}

/// Whether every id of a list of names is within a bound and stands for one name.
pub open spec fn told_apart(ids: Seq<(Seq<char>, u128)>, bound: nat) -> bool {
    &&& forall|a: Seq<char>|
        (#[trigger] assoc_get(ids, a)) matches Some(id) ==> 1 <= id <= bound
    &&& forall|a: Seq<char>, b: Seq<char>|
        (#[trigger] assoc_get(ids, a)) is Some && assoc_get(ids, a) == (#[trigger] assoc_get(
            ids,
            b,
        )) ==> a == b
}

proof fn lemma_told_apart(ids: Seq<(Seq<char>, u128)>, bound: nat, name: Seq<char>, id: u128)
    requires
        told_apart(ids, bound),
        bound < id,
    ensures
        told_apart(assoc_insert(ids, name, id), id as nat),
{
    let next = assoc_insert(ids, name, id);
    assert forall|a: Seq<char>| (#[trigger] assoc_get(next, a)) is Some implies 1 <= assoc_get(
        next,
        a,
    )->0 <= id by {
        law_insert_then_get(ids, name, id, a);
    }
    assert forall|a: Seq<char>, b: Seq<char>|
        (#[trigger] assoc_get(next, a)) is Some && assoc_get(next, a) == (#[trigger] assoc_get(
            next,
            b,
        )) implies a == b by {
        law_insert_then_get(ids, name, id, a);
        law_insert_then_get(ids, name, id, b);
    }
}

proof fn lemma_body_ids(entities: Seq<EntityView>, k: nat)
    requires
        k <= entities.len(),
        k <= u128::MAX,
    ensures
        told_apart(body_ids(entities, k), k),
    decreases k,
{
    if k > 0 {
        lemma_body_ids(entities, (k - 1) as nat);
        lemma_told_apart(
            body_ids(entities, (k - 1) as nat),
            (k - 1) as nat,
            entities[k - 1].name,
            k as u128,
        );
    }
}

proof fn lemma_channel_ids(model: ModelView, k: nat)
    requires
        k <= model.channels.len(),
        model.entities.len() + k <= u128::MAX,
    ensures
        told_apart(channel_ids(model, k), model.entities.len() + k),
    decreases k,
{
    if k == 0 {
        lemma_body_ids(model.entities, model.entities.len());
    } else {
        lemma_channel_ids(model, (k - 1) as nat);
        lemma_told_apart(
            channel_ids(model, (k - 1) as nat),
            (model.entities.len() + k - 1) as nat,
            model.channels[k - 1].0,
            (model.entities.len() + k) as u128,
        );
    }
}

proof fn lemma_slot_ids(ids: Seq<(Seq<char>, u128)>, pool: Seq<char>, base: nat, k: nat)
    requires
        base >= 1,
        told_apart(ids, (base - 1) as nat),
        base + k <= u128::MAX,
    ensures
        told_apart(with_slot_ids(ids, pool, base, k), (base + k - 1) as nat),
    decreases k,
{
    if k > 0 {
        lemma_slot_ids(ids, pool, base, (k - 1) as nat);
        lemma_told_apart(
            with_slot_ids(ids, pool, base, (k - 1) as nat),
            (base + k - 2) as nat,
            slot_name(pool, (k - 1) as nat),
            (base + k - 1) as u128,
        );
    }
}

proof fn lemma_pool_base_grows(model: ModelView, p: nat, q: nat)
    requires
        p <= q <= model.pools.len(),
    ensures
        1 <= pool_base(model, p) <= pool_base(model, q),
    decreases q,
{
    if p < q {
        lemma_pool_base_grows(model, p, (q - 1) as nat);
    } else if p > 0 {
        lemma_pool_base_grows(model, (p - 1) as nat, (p - 1) as nat);
    }
}

pub proof fn lemma_entity_ids(model: ModelView, p: nat)
    requires
        p <= model.pools.len(),
        pool_base(model, p) <= u128::MAX,
    ensures
        told_apart(entity_ids(model, p), (pool_base(model, p) - 1) as nat),
    decreases p,
{
    if p == 0 {
        lemma_channel_ids(model, model.channels.len());
    } else {
        lemma_pool_base_grows(model, (p - 1) as nat, p);
        lemma_entity_ids(model, (p - 1) as nat);
        lemma_slot_ids(
            entity_ids(model, (p - 1) as nat),
            model.pools[p - 1].name,
            pool_base(model, (p - 1) as nat),
            model.pools[p - 1].count as nat,
        );
    }
}

/// Different names of entities, channels and pool slots never share an id, and no id is
/// zero.
pub proof fn law_names_have_ids_of_their_own(model: ModelView, a: Seq<char>, b: Seq<char>)
    requires
        pool_base(model, model.pools.len()) <= u128::MAX,
        a != b,
    ensures
        ({
            let ids = entity_ids(model, model.pools.len());
            assoc_get(ids, a) matches Some(id) ==> id != 0 && assoc_get(ids, b) != Some(id)
        }),
{
    lemma_entity_ids(model, model.pools.len());
}

/// Only declared entities attract each other, and of those only the ones that run and
/// do not opt out: pool slots never do.
pub proof fn law_pool_slots_do_not_attract(
    entities: Seq<EntityView>,
    ids: Seq<u128>,
    k: nat,
    i: int,
)
    requires
        k <= ids.len(),
        0 <= i < attracting(entities, ids, k).len(),
    ensures
        ({
            let id = attracting(entities, ids, k)[i];
            ids.contains(id) && 1 <= id <= entities.len() && entities[id - 1].nbody != Some(false)
        }),
    decreases k,
{
    let found = attracting(entities, ids, (k - 1) as nat);
    if i < found.len() {
        law_pool_slots_do_not_attract(entities, ids, (k - 1) as nat, i);
    } else {
        assert(ids.contains(ids[k - 1]));
    }
}

/// Whether ids increase strictly and lie within a bound.
pub open spec fn ids_increase(ids: Seq<u128>, bound: nat) -> bool {
    &&& forall|i: int, j: int| 0 <= i < j < ids.len() ==> #[trigger] ids[i] < #[trigger] ids[j]
    &&& forall|i: int| 0 <= i < ids.len() ==> 1 <= #[trigger] ids[i] <= bound
}

proof fn lemma_moving_ids(entities: Seq<EntityView>, k: nat)
    requires
        k <= entities.len(),
        k <= u128::MAX,
    ensures
        ids_increase(moving_ids(entities, k), k),
    decreases k,
{
    if k > 0 {
        lemma_moving_ids(entities, (k - 1) as nat);
    }
}

proof fn lemma_with_run(ids: Seq<u128>, base: nat, k: nat)
    requires
        base >= 1,
        ids_increase(ids, (base - 1) as nat),
        base + k <= u128::MAX,
    ensures
        ids_increase(with_run(ids, base, k), (base + k - 1) as nat),
    decreases k,
{
    if k > 0 {
        lemma_with_run(ids, base, (k - 1) as nat);
    }
}

pub proof fn lemma_running_ids(model: ModelView, p: nat)
    requires
        p <= model.pools.len(),
        pool_base(model, p) <= u128::MAX,
    ensures
        ids_increase(running_ids(model, p), (pool_base(model, p) - 1) as nat),
    decreases p,
{
    if p == 0 {
        lemma_moving_ids(model.entities, model.entities.len());
    } else {
        lemma_pool_base_grows(model, (p - 1) as nat, p);
        lemma_running_ids(model, (p - 1) as nat);
        lemma_with_run(
            running_ids(model, (p - 1) as nat),
            pool_base(model, (p - 1) as nat),
            model.pools[p - 1].count as nat,
        );
    }
}

/// The ids that systems run on increase strictly: no entity runs twice.
pub proof fn law_running_ids_increase(model: ModelView)
    requires
        pool_base(model, model.pools.len()) <= u128::MAX,
    ensures
        ({
            let ids = running_ids(model, model.pools.len());
            forall|i: int, j: int| 0 <= i < j < ids.len() ==> #[trigger] ids[i] < #[trigger] ids[j]
        }),
{
    lemma_running_ids(model, model.pools.len());
}

/// Whether the ids of layouts increase: none stands among them twice.
pub open spec fn layouts_increase(s: Seq<(u128, Layout)>) -> bool {
    forall|i: int, j: int| 0 <= i < j < s.len() ==> (#[trigger] s[i]).0 < (#[trigger] s[j]).0
}

proof fn lemma_body_layouts(entities: Seq<EntityView>, k: nat)
    requires
        k <= entities.len() <= u64::MAX,
    ensures
        layouts_increase(body_layouts(entities, k)),
        forall|i: int|
            0 <= i < body_layouts(entities, k).len() ==> (#[trigger] body_layouts(
                entities,
                k,
            )[i]).0 <= k,
    decreases k,
{
    if k > 0 {
        lemma_body_layouts(entities, (k - 1) as nat);
    }
}

proof fn lemma_shared_layouts(s: Seq<(u128, Layout)>, l: Layout, base: nat, k: nat)
    requires
        layouts_increase(s),
        forall|i: int| 0 <= i < s.len() ==> (#[trigger] s[i]).0 < base,
        base + k <= u128::MAX,
    ensures
        layouts_increase(with_shared(s, l, base, k)),
        forall|i: int|
            0 <= i < with_shared(s, l, base, k).len() ==> (#[trigger] with_shared(
                s,
                l,
                base,
                k,
            )[i]).0 < base + k,
    decreases k,
{
    if k > 0 {
        lemma_shared_layouts(s, l, base, (k - 1) as nat);
    }
}

proof fn lemma_all_layouts(model: ModelView, p: nat)
    requires
        p <= model.pools.len() <= u64::MAX,
        model.entities.len() <= u64::MAX,
        model.channels.len() <= u64::MAX,
    ensures
        layouts_increase(all_layouts(model, p)),
        forall|i: int|
            0 <= i < all_layouts(model, p).len() ==> (#[trigger] all_layouts(model, p)[i]).0
                < pool_base(model, p),
    decreases p,
{
    if p == 0 {
        lemma_body_layouts(model.entities, model.entities.len());
    } else {
        lemma_all_layouts(model, (p - 1) as nat);
        lemma_pool_base(model, (p - 1) as nat);
        let before = all_layouts(model, (p - 1) as nat);
        let l = declared_layout(model.pools[p - 1].decl);
        lemma_shared_layouts(
            before,
            l,
            pool_base(model, (p - 1) as nat),
            model.pools[p - 1].count as nat,
        );
    }
}

/// No entity has two layouts: their ids increase.
pub proof fn law_layouts_increase(model: ModelView)
    requires
        model.entities.len() <= u64::MAX,
        model.channels.len() <= u64::MAX,
        model.pools.len() <= u64::MAX,
    ensures
        layouts_increase(all_layouts(model, model.pools.len())),
{
    lemma_all_layouts(model, model.pools.len());
}

} // verus!
