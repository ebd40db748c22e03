//! The scene that a declared world starts from.

use crate::api::EntityId;
use crate::compile::{entity_ids, lemma_entity_ids, lemma_running_ids, pool_base, running_ids};
use crate::decl::{
    field_views, ChanDecl, EntityDecl, EntityView, FieldDecl, FieldView, ModelView, PoolView,
    Triple, WorldModel,
};
use crate::eir::ONE;
use crate::entity::MAX_STATE_SLOTS;
use crate::names::{assoc_get, assoc_insert, NameMap, ViewMap};
use crate::scene::{full_grid, BodyState, BodyView, Grid, GridView, RigidBody, Scene, SceneView};
use crate::table::{get_at, in_order, Ordered, Table};
use vstd::prelude::*;

verus! {

/// All state slots of an entity: those without a value hold zero.
pub open spec fn all_slots(values: Seq<u64>) -> Seq<u64> {
    Seq::new(
        MAX_STATE_SLOTS as nat,
        |i: int|
            if i < values.len() {
                values[i]
            } else {
                0
            },
    )
}

/// Whether a declared entity is a body: it has a place, a velocity or a mass.
pub open spec fn physical(e: EntityView) -> bool {
    e.position is Some || e.velocity is Some || e.mass is Some
}

/// The entity of a declaration. A body that declares no velocity rests, and one that
/// declares no mass has that of one.
pub open spec fn body_of(e: EntityView, active: bool) -> BodyView {
    BodyView {
        transform: e.position,
        velocity: if physical(e) {
            match e.velocity {
                Some(v) => Some(v),
                None => Some(Triple { x: 0, y: 0, z: 0 }),
            }
        } else {
            None
        },
        rigid_body: if physical(e) {
            Some(
                RigidBody {
                    mass: match e.mass {
                        Some(m) => m,
                        None => ONE,
                    },
                    is_dynamic: if e.dynamic == Some(false) {
                        0
                    } else {
                        1
                    },
                },
            )
        } else {
            None
        },
        state: match e.state {
            Some(values) => Some(all_slots(values)),
            None => None,
        },
        camera: e.camera == Some(true),
        active,
    }
}

/// The entity of a channel: its value in the first slot.
pub open spec fn channel_body(value: u64) -> BodyView {
    BodyView {
        transform: None,
        velocity: None,
        rigid_body: None,
        state: Some(all_slots(seq![value])),
        camera: false,
        active: true,
    }
}

/// The slots of the first `p` pools, all of them free.
pub open spec fn pool_bodies(pools: Seq<PoolView>, p: nat) -> Seq<BodyView>
    decreases p,
{
    if p == 0 || p > pools.len() {
        Seq::empty()
    } else {
        pool_bodies(pools, (p - 1) as nat) + Seq::new(
            pools[p - 1].count as nat,
            |k: int| body_of(pools[p - 1].decl, false),
        )
    }
}

/// The entities of a world in the order of their ids: the declared ones, the channels,
/// and the slots of the pools.
pub open spec fn bodies(m: ModelView) -> Seq<BodyView> {
    Seq::new(m.entities.len(), |i: int| body_of(m.entities[i], true)) + Seq::new(
        m.channels.len(),
        |i: int| channel_body(m.channels[i].1),
    ) + pool_bodies(m.pools, m.pools.len())
}

/// Entities under ids that count from one.
pub open spec fn numbered(s: Seq<BodyView>) -> Seq<(EntityId, BodyView)> {
    Seq::new(s.len(), |i: int| (EntityId((i + 1) as u128), s[i]))
}

/// The grid of a field, zero in every cell.
pub open spec fn empty_grid(f: FieldView) -> GridView {
    GridView {
        width: f.width,
        height: f.height,
        depth: f.depth,
        dx: f.dx,
        cells: Seq::new((f.depth * f.height * f.width) as nat, |i: int| 0u64),
    }
}

/// The grids of the first `k` fields.
pub open spec fn grids(fields: Seq<FieldView>, k: nat) -> Seq<(Seq<char>, GridView)>
    decreases k,
{
    if k == 0 || k > fields.len() {
        Seq::empty()
    } else {
        assoc_insert(
            grids(fields, (k - 1) as nat),
            fields[k - 1].name,
            empty_grid(fields[k - 1]),
        )
    }
}

/// The scene that a world starts from.
pub open spec fn built(m: ModelView) -> SceneView {
    SceneView {
        gravity: m.gravity,
        sim_time: 0,
        entities: numbered(bodies(m)),
        fields: grids(m.fields, m.fields.len()),
        params: m.params,
    }
}

fn fill_slots(values: &Vec<u64>) -> (r: Vec<u64>)
    ensures
        r@ == all_slots(values@),
{
    let mut slots: Vec<u64> = Vec::new();
    let mut i: usize = 0;
    while i < MAX_STATE_SLOTS
        invariant
            i <= MAX_STATE_SLOTS,
            slots@ == all_slots(values@).take(i as int),
        decreases MAX_STATE_SLOTS - i,
    {
        let v: u64 = if i < values.len() {
            values[i]
        } else {
            0
        };
        slots.push(v);
        proof {
            assert(slots@ =~= all_slots(values@).take(i + 1));
        }
        i = i + 1;
    }
    proof {
        assert(slots@ =~= all_slots(values@));
    }
    slots
}

fn make_body(e: &EntityDecl, active: bool) -> (r: BodyState)
    ensures
        r@ == body_of(e@, active),
{
    let physical: bool = e.position.is_some() || e.velocity.is_some() || e.mass.is_some();
    let still: bool = match e.dynamic {
        Some(d) => !d,
        None => false,
    };
    BodyState {
        transform: e.position,
        velocity: if physical {
            match e.velocity {
                Some(v) => Some(v),
                None => Some(Triple { x: 0, y: 0, z: 0 }),
            }
        } else {
            None
        },
        rigid_body: if physical {
            Some(
                RigidBody {
                    mass: match e.mass {
                        Some(m) => m,
                        None => ONE,
                    },
                    is_dynamic: if still {
                        0
                    } else {
                        1
                    },
                },
            )
        } else {
            None
        },
        state: match &e.state {
            Some(values) => Some(fill_slots(values)),
            None => None,
        },
        camera: match e.camera {
            Some(c) => c,
            None => false,
        },
        active,
    }
}

fn make_channel(c: &ChanDecl) -> (r: BodyState)
    ensures
        r@ == channel_body(c.value),
{
    let values: Vec<u64> = vec![c.value];
    proof {
        assert(values@ =~= seq![c.value]);
    }
    BodyState {
        transform: None,
        velocity: None,
        rigid_body: None,
        state: Some(fill_slots(&values)),
        camera: false,
        active: true,
    }
}

fn make_grid(f: &FieldDecl) -> (r: Grid)
    ensures
        r@ == empty_grid(f@),
{
    let mut cells: Vec<u64> = Vec::new();
    let mut k: usize = 0;
    while k < f.depth
        invariant
            k <= f.depth,
            cells@ == Seq::new((k * f.height * f.width) as nat, |i: int| 0u64),
        decreases f.depth - k,
    {
        let mut j: usize = 0;
        proof {
            assert(k * f.height * f.width + 0 * f.width == k * f.height * f.width)
                by (nonlinear_arith);
        }
        while j < f.height
            invariant
                j <= f.height,
                cells@ == Seq::new((k * f.height * f.width + j * f.width) as nat, |i: int| 0u64),
            decreases f.height - j,
        {
            let mut i: usize = 0;
            while i < f.width
                invariant
                    i <= f.width,
                    cells@ == Seq::new(
                        (k * f.height * f.width + j * f.width + i) as nat,
                        |i: int| 0u64,
                    ),
                decreases f.width - i,
            {
                proof {
                    assert(k * f.height * f.width + j * f.width >= 0) by (nonlinear_arith);
                }
                cells.push(0);
                proof {
                    assert(cells@ =~= Seq::new(
                        (k * f.height * f.width + j * f.width + i + 1) as nat,
                        |i: int| 0u64,
                    ));
                }
                i = i + 1;
            }
            proof {
                assert(k * f.height * f.width + j * f.width + f.width == k * f.height * f.width + (j
                    + 1) * f.width) by (nonlinear_arith);
            }
            j = j + 1;
        }
        proof {
            assert(k * f.height * f.width + f.height * f.width == (k + 1) * f.height * f.width)
                by (nonlinear_arith);
        }
        k = k + 1;
    }
    Grid { width: f.width, height: f.height, depth: f.depth, dx: f.dx, cells }
}

fn make_grids(fields: &Vec<FieldDecl>) -> (r: ViewMap<Grid>)
    ensures
        r@ == grids(field_views(fields@), fields@.len()),
{
    let ghost views = field_views(fields@);
    let mut map: ViewMap<Grid> = ViewMap::new();
    let mut i: usize = 0;
    while i < fields.len()
        invariant
            i <= fields.len(),
            views == field_views(fields@),
            map@ == grids(views, i as nat),
        decreases fields.len() - i,
    {
        proof {
            assert(views[i as int] == fields@[i as int]@);
        }
        map.insert(fields[i].name.clone(), make_grid(&fields[i]));
        i = i + 1;
    }
    map
}

/// Appends an entity under the next id.
fn enter(table: &mut Table<EntityId, BodyState>, body: BodyState, Ghost(s): Ghost<Seq<BodyView>>)
    requires
        old(table)@ == numbered(s),
    ensures
        final(table)@ == numbered(s.push(body@)),
{
    let id: u128 = (table.entries.len() as u128) + 1;
    let ghost before = table@;
    let ghost added = body@;
    table.entries.push((EntityId(id), body));
    proof {
        assert(before.len() == table.entries@.len() - 1);
        assert(table@ =~= before.push((EntityId(id), added)));
        assert(table@ =~= numbered(s.push(added)));
    }
}

impl WorldModel {
    /// The scene that the world starts from.
    pub fn build_scene(&self) -> (r: Scene)
        ensures
            r@ == built(self@),
            r@.well_formed(),
    {
        let ghost m = self@;
        let mut entities: Table<EntityId, BodyState> = Table::new();
        let ghost mut s: Seq<BodyView> = Seq::empty();
        proof {
            assert(entities@ =~= numbered(s));
        }
        let mut i: usize = 0;
        while i < self.entities.len()
            invariant
                i <= self.entities.len(),
                m == self@,
                entities@ == numbered(s),
                s == Seq::new(i as nat, |j: int| body_of(m.entities[j], true)),
            decreases self.entities.len() - i,
        {
            proof {
                assert(m.entities[i as int] == self.entities@[i as int]@);
            }
            let body: BodyState = make_body(&self.entities[i], true);
            let ghost next = s.push(body@);
            enter(&mut entities, body, Ghost(s));
            proof {
                s = next;
                assert(s =~= Seq::new((i + 1) as nat, |j: int| body_of(m.entities[j], true)));
            }
            i = i + 1;
        }
        let ghost declared = s;
        let mut c: usize = 0;
        proof {
            assert(s =~= declared + Seq::new(0, |j: int| channel_body(m.channels[j].1)));
        }
        while c < self.channels.len()
            invariant
                c <= self.channels.len(),
                m == self@,
                entities@ == numbered(s),
                s == declared + Seq::new(c as nat, |j: int| channel_body(m.channels[j].1)),
            decreases self.channels.len() - c,
        {
            let body: BodyState = make_channel(&self.channels[c]);
            let ghost next = s.push(body@);
            enter(&mut entities, body, Ghost(s));
            proof {
                s = next;
                assert(s =~= declared + Seq::new(
                    (c + 1) as nat,
                    |j: int| channel_body(m.channels[j].1),
                ));
            }
            c = c + 1;
        }
        let ghost named = s;
        let mut p: usize = 0;
        proof {
            assert(s =~= named + pool_bodies(m.pools, 0));
        }
        while p < self.pools.len()
            invariant
                p <= self.pools.len(),
                m == self@,
                entities@ == numbered(s),
                s == named + pool_bodies(m.pools, p as nat),
            decreases self.pools.len() - p,
        {
            proof {
                assert(m.pools[p as int] == self.pools@[p as int]@);
            }
            let ghost before = s;
            let ghost slot = body_of(m.pools[p as int].decl, false);
            let count: u32 = self.pools[p].count;
            let mut k: u32 = 0;
            proof {
                assert(s =~= before + Seq::new(0, |j: int| slot));
            }
            while k < count
                invariant
                    k <= count,
                    p < self.pools@.len(),
                    slot == body_of(self.pools@[p as int].decl@, false),
                    entities@ == numbered(s),
                    s == before + Seq::new(k as nat, |j: int| slot),
                decreases count - k,
            {
                let body: BodyState = make_body(&self.pools[p].decl, false);
                let ghost next = s.push(body@);
                enter(&mut entities, body, Ghost(s));
                proof {
                    s = next;
                    assert(s =~= before + Seq::new((k + 1) as nat, |j: int| slot));
                }
                k = k + 1;
            }
            proof {
                assert(s =~= named + pool_bodies(m.pools, (p + 1) as nat));
            }
            p = p + 1;
        }
        proof {
            assert(s =~= bodies(m));
            lemma_grids_are_full(m.fields, m.fields.len());
        }
        let params: NameMap<u64> = self.params.duplicate();
        Scene {
            gravity: self.gravity,
            sim_time: 0,
            entities,
            fields: make_grids(&self.fields),
            params,
        }
    }
}

proof fn lemma_insert_keeps_full(s: Seq<(Seq<char>, GridView)>, name: Seq<char>, g: GridView)
    requires
        forall|i: int| 0 <= i < s.len() ==> full_grid((#[trigger] s[i]).1),
        full_grid(g),
    ensures
        forall|i: int|
            0 <= i < assoc_insert(s, name, g).len() ==> full_grid(
                (#[trigger] assoc_insert(s, name, g)[i]).1,
            ),
    decreases s.len(),
{
    if s.len() > 0 {
        let rest = s.drop_first();
        let after = assoc_insert(rest, name, g);
        lemma_insert_keeps_full(rest, name, g);
        let r = assoc_insert(s, name, g);
        assert forall|i: int| 0 <= i < r.len() implies full_grid((#[trigger] r[i]).1) by {
            assert(i > 0 ==> r[i] == after[i - 1] || r[i] == s[i] || r[i] == s[i - 1]);
        }
    }
}

proof fn lemma_grids_are_full(fields: Seq<FieldView>, k: nat)
    ensures
        forall|i: int|
            0 <= i < grids(fields, k).len() ==> full_grid((#[trigger] grids(fields, k)[i]).1),
    decreases k,
{
    if k > 0 && k <= fields.len() {
        lemma_grids_are_full(fields, (k - 1) as nat);
        let f = fields[k - 1];
        assert(f.depth * f.height * f.width >= 0) by (nonlinear_arith);
        lemma_insert_keeps_full(grids(fields, (k - 1) as nat), f.name, empty_grid(f));
    }
}

proof fn lemma_first_is_got<V>(s: Seq<(EntityId, V)>, i: int)
    requires
        0 <= i < s.len(),
        forall|j: int| 0 <= j < i ==> (#[trigger] s[j]).0 != s[i].0,
    ensures
        get_at(s, s[i].0) == Some(s[i].1),
    decreases i,
{
    if i > 0 {
        let rest = s.drop_first();
        assert(rest[i - 1] == s[i]);
        assert forall|j: int| 0 <= j < i - 1 implies (#[trigger] rest[j]).0 != rest[i - 1].0 by {
            assert(rest[j] == s[j + 1]);
        }
        lemma_first_is_got(rest, i - 1);
    }
}

proof fn lemma_numbered(s: Seq<BodyView>, id: u128)
    requires
        1 <= id <= s.len() <= u128::MAX,
    ensures
        get_at(numbered(s), EntityId(id)) == Some(s[id - 1]),
{
    lemma_first_is_got(numbered(s), id - 1);
}

proof fn lemma_pool_bodies(m: ModelView, p: nat)
    requires
        p <= m.pools.len(),
    ensures
        m.entities.len() + m.channels.len() + 1 + pool_bodies(m.pools, p).len() == pool_base(m, p),
    decreases p,
{
    if p > 0 {
        lemma_pool_bodies(m, (p - 1) as nat);
    }
}

proof fn lemma_pool_slot(m: ModelView, q: nat, p: nat, k: nat)
    requires
        p < q <= m.pools.len(),
        k < m.pools[p as int].count,
    ensures
        pool_bodies(m.pools, p).len() + k < pool_bodies(m.pools, q).len(),
        pool_bodies(m.pools, q)[(pool_bodies(m.pools, p).len() + k) as int] == body_of(
            m.pools[p as int].decl,
            false,
        ),
    decreases q,
{
    if p + 1 < q {
        lemma_pool_slot(m, (q - 1) as nat, p, k);
    }
}

/// The scene of a world holds what was declared, under ids that count from one: first
/// the entities, then the channels, then the slots of the pools.
pub proof fn law_ids_follow_the_declarations(m: ModelView)
    requires
        pool_base(m, m.pools.len()) <= u128::MAX,
    ensures
        forall|i: int|
            0 <= i < m.entities.len() ==> get_at(
                built(m).entities,
                EntityId((i + 1) as u128),
            ) == Some(body_of(#[trigger] m.entities[i], true)),
        forall|i: int|
            0 <= i < m.channels.len() ==> get_at(
                built(m).entities,
                EntityId((m.entities.len() + i + 1) as u128),
            ) == Some(channel_body((#[trigger] m.channels[i]).1)),
        forall|p: nat, k: nat|
            p < m.pools.len() && k < m.pools[p as int].count ==> get_at(
                built(m).entities,
                EntityId((#[trigger] pool_base(m, p) + k) as u128),
            ) == Some(#[trigger] pool_slot(m, p, k)),
{
    lemma_pool_bodies(m, m.pools.len());
    let all = bodies(m);
    assert forall|i: int| 0 <= i < m.entities.len() implies get_at(
        built(m).entities,
        EntityId((i + 1) as u128),
    ) == Some(body_of(#[trigger] m.entities[i], true)) by {
        lemma_numbered(all, (i + 1) as u128);
    }
    assert forall|i: int| 0 <= i < m.channels.len() implies get_at(
        built(m).entities,
        EntityId((m.entities.len() + i + 1) as u128),
    ) == Some(channel_body((#[trigger] m.channels[i]).1)) by {
        lemma_numbered(all, (m.entities.len() + i + 1) as u128);
    }
    assert forall|p: nat, k: nat|
        p < m.pools.len() && k < m.pools[p as int].count implies get_at(
        built(m).entities,
        EntityId((#[trigger] pool_base(m, p) + k) as u128),
    ) == Some(#[trigger] pool_slot(m, p, k)) by {
        lemma_pool_bodies(m, p);
        lemma_pool_slot(m, m.pools.len(), p, k);
        lemma_numbered(all, (pool_base(m, p) + k) as u128);
    }
}

/// A slot of a pool before the first step: a free copy of its declaration.
pub open spec fn pool_slot(m: ModelView, p: nat, k: nat) -> BodyView {
    body_of(m.pools[p as int].decl, false)
}

/// Every id that a name stands for, and every id that systems run on, is that of an
/// entity in the scene.
pub proof fn law_ids_are_in_the_scene(m: ModelView)
    requires
        pool_base(m, m.pools.len()) <= u128::MAX,
    ensures
        forall|name: Seq<char>|
            (#[trigger] assoc_get(entity_ids(m, m.pools.len()), name)) matches Some(id) ==> get_at(
                built(m).entities,
                EntityId(id),
            ) is Some,
        forall|i: int|
            0 <= i < running_ids(m, m.pools.len()).len() ==> get_at(
                built(m).entities,
                EntityId(#[trigger] running_ids(m, m.pools.len())[i]),
            ) is Some,
{
    lemma_entity_ids(m, m.pools.len());
    lemma_running_ids(m, m.pools.len());
    lemma_pool_bodies(m, m.pools.len());
    let ids = entity_ids(m, m.pools.len());
    assert forall|name: Seq<char>| (#[trigger] assoc_get(ids, name)) is Some implies get_at(
        built(m).entities,
        EntityId(assoc_get(ids, name)->0),
    ) is Some by {
        lemma_numbered(bodies(m), assoc_get(ids, name)->0);
    }
    let run = running_ids(m, m.pools.len());
    assert forall|i: int| 0 <= i < run.len() implies get_at(
        built(m).entities,
        EntityId(#[trigger] run[i]),
    ) is Some by {
        lemma_numbered(bodies(m), run[i]);
    }
}

/// The entities of a scene stand in the order of their ids, each under one.
pub proof fn law_scene_is_in_order(m: ModelView)
    requires
        pool_base(m, m.pools.len()) <= u128::MAX,
    ensures
        in_order(built(m).entities),
{
    lemma_pool_bodies(m, m.pools.len());
    let s = built(m).entities;
    assert forall|i: int, j: int| 0 <= i < j < s.len() implies (#[trigger] s[i]).0.before(
        (#[trigger] s[j]).0,
    ) by {}
}

} // verus!
