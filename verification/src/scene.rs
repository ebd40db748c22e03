//! The state that programs run on, what a run reads of it, and what its writes do.

use crate::api::{error, spec_error, EntityId, Error, Status};
use crate::decl::{list_view, Triple};
use crate::double::{equals_zero, saturated, to_usize, zero};
use crate::eir::{
    Component, ComponentRef, ComponentRefView, ComponentView, WorldWrite, IS_DYNAMIC, MASS, ONE,
    STATE_SLOT_BYTES, ZERO,
};
use crate::entity::MAX_STATE_SLOTS;
use crate::names::{
    assoc_get, assoc_set, law_insert_then_get, lemma_assoc_place, same, NameMap, ViewMap,
};
use crate::table::{get_at, set_at, Table};
use vstd::prelude::*;

verus! {

/// The mass properties of a body. Numbers are held by their bits.
#[derive(Clone, Copy, Debug, PartialEq, Eq, Structural)]
pub struct RigidBody {
    pub mass: u64,
    /// Zero for a body that stays where it is.
    pub is_dynamic: u8,
}

/// An entity of a scene.
#[derive(Debug)]
pub struct BodyState {
    /// The position.
    pub transform: Option<Triple>,
    /// The linear velocity.
    pub velocity: Option<Triple>,
    pub rigid_body: Option<RigidBody>,
    /// The state slots.
    pub state: Option<Vec<u64>>,
    pub camera: bool,
    /// Whether the entity takes part; a free slot of a pool does not.
    pub active: bool,
}

/// The mathematical value of a [`BodyState`].
pub struct BodyView {
    pub transform: Option<Triple>,
    pub velocity: Option<Triple>,
    pub rigid_body: Option<RigidBody>,
    pub state: Option<Seq<u64>>,
    pub camera: bool,
    pub active: bool,
}

impl View for BodyState {
    type V = BodyView;

    open spec fn view(&self) -> BodyView {
        BodyView {
            transform: self.transform,
            velocity: self.velocity,
            rigid_body: self.rigid_body,
            state: list_view(self.state),
            camera: self.camera,
            active: self.active,
        }
    }
}

/// A grid of cells, the `i` index fastest and the `k` index slowest.
#[derive(Debug)]
pub struct Grid {
    pub width: usize,
    pub height: usize,
    pub depth: usize,
    /// Bits of the cell size.
    pub dx: u64,
    pub cells: Vec<u64>,
}

/// The mathematical value of a [`Grid`].
pub struct GridView {
    pub width: usize,
    pub height: usize,
    pub depth: usize,
    pub dx: u64,
    pub cells: Seq<u64>,
}

impl View for Grid {
    type V = GridView;

    open spec fn view(&self) -> GridView {
        GridView {
            width: self.width,
            height: self.height,
            depth: self.depth,
            dx: self.dx,
            cells: self.cells@,
        }
    }
}

/// Whether a grid has one cell for every index.
pub open spec fn full_grid(g: GridView) -> bool {
    g.cells.len() == g.depth * g.height * g.width
}

/// A scene.
#[derive(Debug)]
pub struct Scene {
    pub gravity: Triple,
    /// Bits of the clock, in seconds.
    pub sim_time: u64,
    pub entities: Table<EntityId, BodyState>,
    pub fields: ViewMap<Grid>,
    pub params: NameMap<u64>,
}

/// The mathematical value of a [`Scene`].
pub struct SceneView {
    pub gravity: Triple,
    pub sim_time: u64,
    pub entities: Seq<(EntityId, BodyView)>,
    pub fields: Seq<(Seq<char>, GridView)>,
    pub params: Seq<(Seq<char>, u64)>,
}

impl View for Scene {
    type V = SceneView;

    open spec fn view(&self) -> SceneView {
        SceneView {
            gravity: self.gravity,
            sim_time: self.sim_time,
            entities: self.entities@,
            fields: self.fields@,
            params: self.params@,
        }
    }
}

impl SceneView {
    /// Whether every grid has one cell for every index.
    pub open spec fn well_formed(self) -> bool {
        forall|i: int| 0 <= i < self.fields.len() ==> full_grid((#[trigger] self.fields[i]).1)
    }
}

impl Scene {
    /// A scene without entities.
    pub fn new(gravity: Triple) -> (s: Scene)
        ensures
            s@ == (SceneView {
                gravity,
                sim_time: 0,
                entities: Seq::empty(),
                fields: Seq::empty(),
                params: Seq::empty(),
            }),
            s@.well_formed(),
    {
        Scene {
            gravity,
            sim_time: 0,
            entities: Table::new(),
            fields: ViewMap::new(),
            params: NameMap::new(),
        }
    }
}

/// One of three numbers by its byte offset; zero at any other offset.
pub open spec fn axis(t: Triple, offset: u32) -> u64 {
    if offset == 0 {
        t.x
    } else if offset == 8 {
        t.y
    } else if offset == 16 {
        t.z
    } else {
        0
    }
}

fn read_axis(t: &Triple, offset: u32) -> (r: u64)
    ensures
        r == axis(*t, offset),
{
    match offset {
        0 => t.x,
        8 => t.y,
        16 => t.z,
        _ => 0,
    }
}

/// A component field of a body: an error for a component that the body lacks, but a
/// body without state slots has zeros in them.
pub open spec fn body_read(b: BodyView, c: ComponentView, offset: u32) -> Result<u64, Error> {
    match c {
        ComponentView::Transform => match b.transform {
            Some(t) => Ok(axis(t, offset)),
            None => Err(spec_error(Status::HandleStale, 2)),
        },
        ComponentView::Velocity => match b.velocity {
            Some(v) => Ok(axis(v, offset)),
            None => Err(spec_error(Status::HandleStale, 3)),
        },
        ComponentView::RigidBody => match b.rigid_body {
            Some(rb) => Ok(
                if offset == MASS {
                    rb.mass
                } else if offset == IS_DYNAMIC {
                    rb.is_dynamic as u64
                } else {
                    0
                },
            ),
            None => Err(spec_error(Status::HandleStale, 4)),
        },
        ComponentView::State => match b.state {
            Some(v) => {
                let slot = offset / STATE_SLOT_BYTES;
                Ok(
                    if slot < v.len() {
                        v[slot as int]
                    } else {
                        0
                    },
                )
            },
            None => Ok(0),
        },
        ComponentView::Active => Ok(
            if b.active {
                ONE
            } else {
                ZERO
            },
        ),
        _ => Ok(0),
    }
}

fn read_body(b: &BodyState, c: &Component, offset: u32) -> (r: Result<u64, Error>)
    ensures
        r == body_read(b@, c@, offset),
{
    match c {
        Component::Transform => match &b.transform {
            Some(t) => Ok(read_axis(t, offset)),
            None => Err(error(Status::HandleStale, 2)),
        },
        Component::Velocity => match &b.velocity {
            Some(v) => Ok(read_axis(v, offset)),
            None => Err(error(Status::HandleStale, 3)),
        },
        Component::RigidBody => match &b.rigid_body {
            Some(rb) => Ok(
                if offset == MASS {
                    rb.mass
                } else if offset == IS_DYNAMIC {
                    rb.is_dynamic as u64
                } else {
                    0
                },
            ),
            None => Err(error(Status::HandleStale, 4)),
        },
        Component::State => match &b.state {
            Some(v) => {
                let slot: usize = (offset / STATE_SLOT_BYTES) as usize;
                Ok(
                    if slot < v.len() {
                        v[slot]
                    } else {
                        0
                    },
                )
            },
            None => Ok(0),
        },
        Component::Active => Ok(
            if b.active {
                ONE
            } else {
                ZERO
            },
        ),
        _ => Ok(0),
    }
}

/// The pending value of a component field, if it was written in this run.
pub open spec fn pending_get(s: Seq<(ComponentRefView, u64)>, at: ComponentRefView) -> Option<u64>
    decreases s.len(),
{
    if s.len() == 0 {
        None
    } else if s[0].0 == at {
        Some(s[0].1)
    } else {
        pending_get(s.drop_first(), at)
    }
}

/// The index of a pending value, or the length without one.
pub open spec fn pending_place(s: Seq<(ComponentRefView, u64)>, at: ComponentRefView) -> nat
    decreases s.len(),
{
    if s.len() == 0 || s[0].0 == at {
        0
    } else {
        1 + pending_place(s.drop_first(), at)
    }
}

/// The pending values with one of them written.
pub open spec fn pending_put(
    s: Seq<(ComponentRefView, u64)>,
    at: ComponentRefView,
    value: u64,
) -> Seq<(ComponentRefView, u64)> {
    if pending_place(s, at) < s.len() {
        s.update(pending_place(s, at) as int, (at, value))
    } else {
        s.push((at, value))
    }
}

/// A pending write is read back, and leaves the other pending values as they were.
pub proof fn law_pending_put_then_get(
    s: Seq<(ComponentRefView, u64)>,
    at: ComponentRefView,
    value: u64,
    other: ComponentRefView,
)
    ensures
        pending_get(pending_put(s, at, value), other) == (if other == at {
            Some(value)
        } else {
            pending_get(s, other)
        }),
    decreases s.len(),
{
    reveal_with_fuel(pending_get, 2);
    reveal_with_fuel(pending_place, 2);
    let r = pending_put(s, at, value);
    if s.len() == 0 {
        assert(r.drop_first() =~= Seq::<(ComponentRefView, u64)>::empty());
    } else if s[0].0 == at {
        assert(r.drop_first() =~= s.drop_first());
    } else {
        law_pending_put_then_get(s.drop_first(), at, value, other);
        lemma_pending_place(s.drop_first(), at);
        assert(r.drop_first() =~= pending_put(s.drop_first(), at, value));
    }
}

proof fn lemma_pending_place(s: Seq<(ComponentRefView, u64)>, at: ComponentRefView)
    ensures
        pending_place(s, at) <= s.len(),
    decreases s.len(),
{
    if s.len() > 0 && s[0].0 != at {
        lemma_pending_place(s.drop_first(), at);
    }
}

/// Whether two components are the same.
pub fn same_component(a: &Component, b: &Component) -> (r: bool)
    ensures
        r == (a@ == b@),
{
    match (a, b) {
        (Component::Transform, Component::Transform) => true,
        (Component::Velocity, Component::Velocity) => true,
        (Component::RigidBody, Component::RigidBody) => true,
        (Component::State, Component::State) => true,
        (Component::SimTime, Component::SimTime) => true,
        (Component::Check, Component::Check) => true,
        (Component::Active, Component::Active) => true,
        (Component::Param(x), Component::Param(y)) => same(x, y),
        (Component::Field(x), Component::Field(y)) => same(x, y),
        _ => false,
    }
}

/// What a run sees: the scene, and what it has written so far. Cells go to a copy of
/// their whole field, everything else to a list.
pub struct SceneRuntime<'a> {
    pub scene: &'a Scene,
    pub pending: Vec<(ComponentRef, u64)>,
    pub overlay: ViewMap<Vec<u64>>,
}

/// The mathematical value of a [`SceneRuntime`].
pub struct RuntimeView {
    pub scene: SceneView,
    pub pending: Seq<(ComponentRefView, u64)>,
    pub overlay: Seq<(Seq<char>, Seq<u64>)>,
}

/// The values of a list of pending writes.
pub open spec fn pending_views(s: Seq<(ComponentRef, u64)>) -> Seq<(ComponentRefView, u64)> {
    s.map_values(|p: (ComponentRef, u64)| (p.0@, p.1))
}

impl<'a> View for SceneRuntime<'a> {
    type V = RuntimeView;

    open spec fn view(&self) -> RuntimeView {
        RuntimeView {
            scene: self.scene@,
            pending: pending_views(self.pending@),
            overlay: self.overlay@,
        }
    }
}

/// The cell of a field as the run sees it: what it wrote, else what the scene holds.
pub open spec fn cell_of(r: RuntimeView, name: Seq<char>, g: GridView, idx: int) -> u64 {
    match assoc_get(r.overlay, name) {
        Some(c) => if idx < c.len() {
            c[idx]
        } else {
            g.cells[idx]
        },
        None => g.cells[idx],
    }
}

/// What a run reads. Pending writes come first, then the clock, parameters and
/// fields, which belong to no entity. A name that stands for nothing reads zero.
pub open spec fn field_read(r: RuntimeView, at: ComponentRefView) -> Result<u64, Error> {
    match pending_get(r.pending, at) {
        Some(v) => Ok(v),
        None => if at.component == ComponentView::SimTime {
            Ok(r.scene.sim_time)
        } else if param_of(r.scene, at.component) is Some {
            Ok(param_of(r.scene, at.component)->0)
        } else {
            match grid_of(r.scene, at.component) {
                Some((name, g)) => {
                    let idx = at.offset / STATE_SLOT_BYTES;
                    if idx >= g.cells.len() {
                        Err(spec_error(Status::Invalid, 7))
                    } else {
                        Ok(cell_of(r, name, g, idx as int))
                    }
                },
                None => if at.entity == 0 {
                    Ok(0)
                } else {
                    match get_at(r.scene.entities, EntityId(at.entity)) {
                        None => Err(spec_error(Status::HandleStale, 1)),
                        Some(b) => body_read(b, at.component, at.offset),
                    }
                },
            }
        },
    }
}

/// The parameter that a component stands for.
pub open spec fn param_of(s: SceneView, c: ComponentView) -> Option<u64> {
    match c {
        ComponentView::Param(name) => assoc_get(s.params, name),
        _ => None,
    }
}

/// The field that a component stands for.
pub open spec fn grid_of(s: SceneView, c: ComponentView) -> Option<(Seq<char>, GridView)> {
    match c {
        ComponentView::Field(name) => match assoc_get(s.fields, name) {
            Some(g) => Some((name, g)),
            None => None,
        },
        _ => None,
    }
}

/// What a write of a run does to what it sees.
pub open spec fn field_written(r: RuntimeView, at: ComponentRefView, value: u64) -> RuntimeView {
    match grid_of(r.scene, at.component) {
        Some((name, g)) => {
            let cells = match assoc_get(r.overlay, name) {
                Some(c) => c,
                None => g.cells,
            };
            let idx = at.offset / STATE_SLOT_BYTES;
            let cells = if idx < cells.len() {
                cells.update(idx as int, value)
            } else {
                cells
            };
            RuntimeView { overlay: crate::names::assoc_insert(r.overlay, name, cells), ..r }
        },
        None => RuntimeView { pending: pending_put(r.pending, at, value), ..r },
    }
}

/// A body's position as a run sees it: each coordinate as it was written in the run,
/// else that of the transform, else that of the leading state slots.
pub open spec fn seen_position(r: RuntimeView, b: BodyView, entity: u128) -> Triple {
    let base = match b.transform {
        Some(t) => t,
        None => Triple { x: slot_or_zero(b, 0), y: slot_or_zero(b, 1), z: slot_or_zero(b, 2) },
    };
    Triple {
        x: written_or(r, entity, 0, base.x),
        y: written_or(r, entity, 8, base.y),
        z: written_or(r, entity, 16, base.z),
    }
}

/// A state slot of a body, zero where there is none.
pub open spec fn slot_or_zero(b: BodyView, i: int) -> u64 {
    match b.state {
        Some(v) => if i < v.len() {
            v[i]
        } else {
            0
        },
        None => 0,
    }
}

/// A coordinate that was written in a run, else a default.
pub open spec fn written_or(r: RuntimeView, entity: u128, offset: u32, default: u64) -> u64 {
    match pending_get(
        r.pending,
        ComponentRefView { entity, component: ComponentView::Transform, offset },
    ) {
        Some(v) => v,
        None => default,
    }
}

/// The entities that a query of an entity looks at, among the first `k`: all but
/// itself and the cameras, each with its position.
pub open spec fn seen_others(r: RuntimeView, entity: u128, k: nat) -> Seq<(u128, Triple)>
    decreases k,
{
    if k == 0 || k > r.scene.entities.len() {
        Seq::empty()
    } else {
        let found = seen_others(r, entity, (k - 1) as nat);
        let (id, b) = r.scene.entities[k - 1];
        if id.0 == entity || b.camera {
            found
        } else {
            found.push((id.0, seen_position(r, b, id.0)))
        }
    }
}

/// A cell and its six neighbours. A neighbour past the edge is the cell itself.
#[derive(Clone, Copy, Debug, PartialEq, Eq, Structural)]
pub struct Stencil {
    pub center: u64,
    pub left: u64,
    pub right: u64,
    pub up: u64,
    pub down: u64,
    pub back: u64,
    pub front: u64,
}

/// The index of a cell in the list of cells.
pub open spec fn cell_index(g: GridView, i: int, j: int, k: int) -> int {
    (k * g.height + j) * g.width + i
}

/// The cells around a cell, as a run sees them.
pub open spec fn stencil_of(
    r: RuntimeView,
    name: Seq<char>,
    g: GridView,
    i: int,
    j: int,
    k: int,
) -> Stencil {
    let cell = |a: int, b: int, c: int| cell_of(r, name, g, cell_index(g, a, b, c));
    let center = cell(i, j, k);
    Stencil {
        center,
        left: if i > 0 {
            cell(i - 1, j, k)
        } else {
            center
        },
        right: if i + 1 < g.width {
            cell(i + 1, j, k)
        } else {
            center
        },
        up: if j > 0 {
            cell(i, j - 1, k)
        } else {
            center
        },
        down: if j + 1 < g.height {
            cell(i, j + 1, k)
        } else {
            center
        },
        back: if k > 0 {
            cell(i, j, k - 1)
        } else {
            center
        },
        front: if k + 1 < g.depth {
            cell(i, j, k + 1)
        } else {
            center
        },
    }
}

/// The cells for a Laplacian at the column `i` and the packed row `j + k * height`,
/// both given as doubles by their bits.
pub open spec fn laplacian_cells(
    r: RuntimeView,
    name: Seq<char>,
    i: u64,
    packed: u64,
) -> Result<Stencil, Error> {
    match assoc_get(r.scene.fields, name) {
        None => Err(spec_error(Status::HandleStale, 6)),
        Some(g) => {
            let column = saturated(i, usize::MAX as nat) as int;
            let row = saturated(packed, usize::MAX as nat) as int;
            let k = if g.height == 0 {
                0
            } else {
                row / g.height as int
            };
            let j = if g.height == 0 {
                0
            } else {
                row % g.height as int
            };
            if column >= g.width || j >= g.height || k >= g.depth {
                Err(spec_error(Status::Invalid, 7))
            } else {
                Ok(stencil_of(r, name, g, column, j, k))
            }
        },
    }
}

proof fn lemma_cell_index(w: int, h: int, d: int, i: int, j: int, k: int)
    requires
        0 <= i < w,
        0 <= j < h,
        0 <= k < d,
    ensures
        0 <= k * h,
        0 <= k * h + j,
        0 <= (k * h + j) * w,
        0 <= (k * h + j) * w + i < d * h * w,
        k * h + j < d * h * w,
        (k * h + j) * w < d * h * w,
        k * h < d * h * w,
{
    assert(k * h + j < d * h) by (nonlinear_arith)
        requires
            0 <= j < h,
            0 <= k < d,
    ;
    assert(0 <= k * h) by (nonlinear_arith)
        requires
            0 <= k,
            0 < h,
    ;
    let n = k * h + j;
    let m = d * h;
    assert(n * w + i < m * w && 0 <= n * w && n < m * w) by (nonlinear_arith)
        requires
            0 <= i < w,
            0 <= n < m,
    ;
}

impl<'a> SceneRuntime<'a> {
    /// A run that has written nothing.
    pub fn new(scene: &'a Scene) -> (r: SceneRuntime<'a>)
        ensures
            r@ == (RuntimeView {
                scene: scene@,
                pending: Seq::empty(),
                overlay: Seq::empty(),
            }),
    {
        let r = SceneRuntime { scene, pending: Vec::new(), overlay: ViewMap::new() };
        proof {
            assert(r@.pending =~= Seq::<(ComponentRefView, u64)>::empty());
        }
        r
    }

    fn find_pending(&self, at: &ComponentRef) -> (r: usize)
        ensures
            r == pending_place(self@.pending, at@),
            r <= self.pending@.len(),
            pending_get(self@.pending, at@) == (if r < self.pending@.len() {
                Some(self.pending@[r as int].1)
            } else {
                None
            }),
    {
        let ghost views = self@.pending;
        let mut i: usize = 0;
        proof {
            assert(views.skip(0) =~= views);
        }
        while i < self.pending.len()
            invariant
                i <= self.pending.len(),
                views == pending_views(self.pending@),
                pending_place(views, at@) == i + pending_place(views.skip(i as int), at@),
                pending_get(views, at@) == pending_get(views.skip(i as int), at@),
            decreases self.pending.len() - i,
        {
            let p: &ComponentRef = &self.pending[i].0;
            proof {
                assert(views.skip(i as int)[0] == (p@, self.pending@[i as int].1));
                assert(views.skip(i as int).drop_first() =~= views.skip(i + 1));
            }
            if p.entity == at.entity && p.offset == at.offset && same_component(
                &p.component,
                &at.component,
            ) {
                return i;
            }
            i = i + 1;
        }
        i
    }

    fn written(&self, at: &ComponentRef) -> (r: Option<u64>)
        ensures
            r == pending_get(self@.pending, at@),
    {
        let i: usize = self.find_pending(at);
        if i < self.pending.len() {
            Some(self.pending[i].1)
        } else {
            None
        }
    }

    fn cell(&self, name: &str, g: &Grid, idx: usize) -> (r: u64)
        requires
            idx < g.cells@.len(),
        ensures
            r == cell_of(self@, name@, g@, idx as int),
    {
        if let Some(c) = self.overlay.get(name) {
            if idx < c.len() {
                return c[idx];
            }
        }
        g.cells[idx]
    }

    /// Reads a component field.
    pub fn read_field(&self, at: &ComponentRef) -> (r: Result<u64, Error>)
        ensures
            r == field_read(self@, at@),
    {
        if let Some(v) = self.written(at) {
            return Ok(v);
        }
        match &at.component {
            Component::SimTime => return Ok(self.scene.sim_time),
            Component::Param(name) => {
                if let Some(v) = self.scene.params.get(name) {
                    return Ok(*v);
                }
            },
            Component::Field(name) => {
                if let Some(g) = self.scene.fields.get(name) {
                    let idx: usize = (at.offset / STATE_SLOT_BYTES) as usize;
                    if idx >= g.cells.len() {
                        return Err(error(Status::Invalid, 7));
                    }
                    return Ok(self.cell(name, g, idx));
                }
            },
            _ => {},
        }
        if at.entity == 0 {
            return Ok(0);
        }
        match self.scene.entities.get(&EntityId(at.entity)) {
            None => Err(error(Status::HandleStale, 1)),
            Some(b) => read_body(b, &at.component, at.offset),
        }
    }

    /// Writes a component field for the rest of the run.
    pub fn write_field(&mut self, at: ComponentRef, value: u64)
        ensures
            final(self)@ == field_written(old(self)@, at@, value),
    {
        let ghost before = self@;
        if let Component::Field(name) = &at.component {
            if let Some(g) = self.scene.fields.get(name) {
                let mut cells: Vec<u64> = match self.overlay.get(name) {
                    Some(c) => c.clone(),
                    None => g.cells.clone(),
                };
                proof {
                    let was = match assoc_get(before.overlay, name@) {
                        Some(c) => c,
                        None => g@.cells,
                    };
                    assert(cells@ =~= was);
                }
                let idx: usize = (at.offset / STATE_SLOT_BYTES) as usize;
                if idx < cells.len() {
                    cells.set(idx, value);
                }
                self.overlay.insert(name.clone(), cells);
                return ;
            }
        }
        let i: usize = self.find_pending(&at);
        let ghost av = at@;
        if i < self.pending.len() {
            self.pending.set(i, (at, value));
            proof {
                assert(self@.pending =~= before.pending.update(i as int, (av, value)));
            }
        } else {
            self.pending.push((at, value));
            proof {
                assert(self@.pending =~= before.pending.push((av, value)));
            }
        }
    }

    fn coordinate(&self, entity: u128, offset: u32, default: u64) -> (r: u64)
        ensures
            r == written_or(self@, entity, offset, default),
    {
        let at = ComponentRef { entity, component: Component::Transform, offset };
        match self.written(&at) {
            Some(v) => v,
            None => default,
        }
    }

    fn effective_position(&self, b: &BodyState, entity: u128) -> (r: Triple)
        ensures
            r == seen_position(self@, b@, entity),
    {
        let base: Triple = match b.transform {
            Some(t) => t,
            None => Triple { x: slot_value(b, 0), y: slot_value(b, 1), z: slot_value(b, 2) },
        };
        Triple {
            x: self.coordinate(entity, 0, base.x),
            y: self.coordinate(entity, 8, base.y),
            z: self.coordinate(entity, 16, base.z),
        }
    }

    /// The position of an entity as the run sees it.
    pub fn position_of(&self, entity: u128) -> (r: Result<Triple, Error>)
        ensures
            r == (match get_at(self@.scene.entities, EntityId(entity)) {
                None => Err::<Triple, Error>(spec_error(Status::HandleStale, 1)),
                Some(b) => Ok(seen_position(self@, b, entity)),
            }),
    {
        match self.scene.entities.get(&EntityId(entity)) {
            None => Err(error(Status::HandleStale, 1)),
            Some(b) => Ok(self.effective_position(b, entity)),
        }
    }

    /// What a spatial query of an entity looks at, in the order of the ids.
    pub fn others(&self, entity: u128) -> (r: Vec<(u128, Triple)>)
        ensures
            r@ == seen_others(self@, entity, self@.scene.entities.len()),
    {
        let mut found: Vec<(u128, Triple)> = Vec::new();
        let mut i: usize = 0;
        while i < self.scene.entities.entries.len()
            invariant
                i <= self.scene.entities.entries.len(),
                self@.scene.entities.len() == self.scene.entities.entries.len(),
                found@ == seen_others(self@, entity, i as nat),
            decreases self.scene.entities.entries.len() - i,
        {
            let id: EntityId = self.scene.entities.entries[i].0;
            let b: &BodyState = &self.scene.entities.entries[i].1;
            proof {
                assert(self@.scene.entities[i as int] == (id, b@));
            }
            if !(id.0 == entity || b.camera) {
                found.push((id.0, self.effective_position(b, id.0)));
            }
            i = i + 1;
        }
        found
    }

    /// The cells for a Laplacian; column and packed row are doubles by their bits.
    pub fn stencil(&self, name: &str, i: u64, packed: u64) -> (r: Result<Stencil, Error>)
        requires
            assoc_get(self@.scene.fields, name@) matches Some(g) ==> full_grid(g),
        ensures
            r == laplacian_cells(self@, name@, i, packed),
    {
        let at: usize = match self.scene.fields.find(name) {
            Some(at) => at,
            None => return Err(error(Status::HandleStale, 6)),
        };
        let g: &Grid = &self.scene.fields.entries[at].1;
        proof {
            assert(self@.scene.fields[at as int].1 == g@);
            lemma_assoc_place(self@.scene.fields, name@);
        }
        let column: usize = to_usize(i);
        let row: usize = to_usize(packed);
        let (w, h, d): (usize, usize, usize) = (g.width, g.height, g.depth);
        let k: usize = if h == 0 {
            0
        } else {
            row / h
        };
        let j: usize = if h == 0 {
            0
        } else {
            row % h
        };
        if column >= w || j >= h || k >= d {
            return Err(error(Status::Invalid, 7));
        }
        let center: u64 = self.cell_at(name, g, column, j, k);
        let left: u64 = if column > 0 {
            self.cell_at(name, g, column - 1, j, k)
        } else {
            center
        };
        let right: u64 = if column < w - 1 {
            self.cell_at(name, g, column + 1, j, k)
        } else {
            center
        };
        let up: u64 = if j > 0 {
            self.cell_at(name, g, column, j - 1, k)
        } else {
            center
        };
        let down: u64 = if j < h - 1 {
            self.cell_at(name, g, column, j + 1, k)
        } else {
            center
        };
        let back: u64 = if k > 0 {
            self.cell_at(name, g, column, j, k - 1)
        } else {
            center
        };
        let front: u64 = if k < d - 1 {
            self.cell_at(name, g, column, j, k + 1)
        } else {
            center
        };
        Ok(Stencil { center, left, right, up, down, back, front })
    }

    fn cell_at(&self, name: &str, g: &Grid, i: usize, j: usize, k: usize) -> (r: u64)
        requires
            full_grid(g@),
            i < g.width,
            j < g.height,
            k < g.depth,
        ensures
            r == cell_of(self@, name@, g@, cell_index(g@, i as int, j as int, k as int)),
    {
        let total: usize = g.cells.len();
        proof {
            assert(total == g.depth * g.height * g.width);
            lemma_cell_index(
                g.width as int,
                g.height as int,
                g.depth as int,
                i as int,
                j as int,
                k as int,
            );
        }
        let idx: usize = (k * g.height + j) * g.width + i;
        self.cell(name, g, idx)
    }
}

fn slot_value(b: &BodyState, i: usize) -> (r: u64)
    ensures
        r == slot_or_zero(b@, i as int),
{
    match &b.state {
        Some(v) => if i < v.len() {
            v[i]
        } else {
            0
        },
        None => 0,
    }
}

/// The mathematical value of a [`WorldWrite`].
pub struct WriteView {
    pub entity: u128,
    pub component: ComponentView,
    pub offset: u32,
    pub value: u64,
}

impl View for WorldWrite {
    type V = WriteView;

    open spec fn view(&self) -> WriteView {
        WriteView {
            entity: self.entity,
            component: self.component@,
            offset: self.offset,
            value: self.value,
        }
    }
}

/// The values of a list of writes.
pub open spec fn write_views(s: Seq<WorldWrite>) -> Seq<WriteView> {
    s.map_values(|w: WorldWrite| w@)
}

/// Three numbers with one of them replaced, by its byte offset.
pub open spec fn with_axis(t: Option<Triple>, offset: u32, value: u64) -> Triple {
    let t = match t {
        Some(t) => t,
        None => Triple { x: 0, y: 0, z: 0 },
    };
    if offset == 0 {
        Triple { x: value, ..t }
    } else if offset == 8 {
        Triple { y: value, ..t }
    } else if offset == 16 {
        Triple { z: value, ..t }
    } else {
        t
    }
}

fn set_axis(t: &Option<Triple>, offset: u32, value: u64) -> (r: Triple)
    ensures
        r == with_axis(*t, offset, value),
{
    let mut r: Triple = match t {
        Some(t) => *t,
        None => Triple { x: 0, y: 0, z: 0 },
    };
    match offset {
        0 => {
            r.x = value;
        },
        8 => {
            r.y = value;
        },
        16 => {
            r.z = value;
        },
        _ => {},
    }
    r
}

/// State slots with one of them written; a body without slots gets them all, zero.
pub open spec fn with_slot(s: Option<Seq<u64>>, offset: u32, value: u64) -> Seq<u64> {
    let v = match s {
        Some(v) => v,
        None => Seq::new(MAX_STATE_SLOTS as nat, |i: int| 0u64),
    };
    let slot = offset / STATE_SLOT_BYTES;
    if slot < v.len() {
        v.update(slot as int, value)
    } else {
        v
    }
}

/// A body after a write to one of its components.
pub open spec fn body_written(b: BodyView, c: ComponentView, offset: u32, value: u64) -> BodyView {
    match c {
        ComponentView::Velocity => BodyView {
            velocity: Some(with_axis(b.velocity, offset, value)),
            ..b
        },
        ComponentView::Transform => BodyView {
            transform: Some(with_axis(b.transform, offset, value)),
            ..b
        },
        ComponentView::State => BodyView { state: Some(with_slot(b.state, offset, value)), ..b },
        ComponentView::Active => BodyView { active: !zero(value), ..b },
        _ => b,
    }
}

/// The scene after a write: a cell of a field, or a component of an entity.
pub open spec fn scene_written(s: SceneView, w: WriteView) -> Result<SceneView, Error> {
    match grid_of(s, w.component) {
        Some((name, g)) => {
            let idx = w.offset / STATE_SLOT_BYTES;
            if idx >= g.cells.len() {
                Err(spec_error(Status::Invalid, 7))
            } else {
                let g = GridView { cells: g.cells.update(idx as int, w.value), ..g };
                Ok(SceneView { fields: assoc_set(s.fields, name, g), ..s })
            }
        },
        None => match get_at(s.entities, EntityId(w.entity)) {
            None => Err(spec_error(Status::HandleStale, 5)),
            Some(b) => Ok(
                SceneView {
                    entities: set_at(
                        s.entities,
                        EntityId(w.entity),
                        body_written(b, w.component, w.offset, w.value),
                    ),
                    ..s
                },
            ),
        },
    }
}

/// The scene after a list of writes, up to the first that fails, and its error.
pub open spec fn scene_after(s: SceneView, writes: Seq<WriteView>) -> (SceneView, Result<(), Error>)
    decreases writes.len(),
{
    if writes.len() == 0 {
        (s, Ok(()))
    } else {
        match scene_written(s, writes[0]) {
            Err(e) => (s, Err(e)),
            Ok(next) => scene_after(next, writes.drop_first()),
        }
    }
}

fn write_cell(scene: &mut Scene, at: usize, idx: usize, value: u64)
    requires
        at < old(scene).fields.entries@.len(),
        idx < old(scene).fields.entries@[at as int].1.cells@.len(),
    ensures
        final(scene)@ == (SceneView {
            fields: old(scene)@.fields.update(
                at as int,
                (
                    old(scene)@.fields[at as int].0,
                    GridView {
                        cells: old(scene)@.fields[at as int].1.cells.update(idx as int, value),
                        ..old(scene)@.fields[at as int].1
                    },
                ),
            ),
            ..old(scene)@
        }),
{
    let ghost before = scene@.fields;
    scene.fields.entries[at].1.cells.set(idx, value);
    proof {
        assert(scene@.fields =~= before.update(
            at as int,
            (
                before[at as int].0,
                GridView {
                    cells: before[at as int].1.cells.update(idx as int, value),
                    ..before[at as int].1
                },
            ),
        ));
    }
}

fn zero_slots() -> (r: Vec<u64>)
    ensures
        r@ == Seq::new(MAX_STATE_SLOTS as nat, |i: int| 0u64),
{
    let mut v: Vec<u64> = Vec::new();
    while v.len() < MAX_STATE_SLOTS
        invariant
            v@.len() <= MAX_STATE_SLOTS,
            forall|k: int| 0 <= k < v@.len() ==> v@[k] == 0,
        decreases MAX_STATE_SLOTS - v@.len(),
    {
        v.push(0);
    }
    proof {
        assert(v@ =~= Seq::new(MAX_STATE_SLOTS as nat, |i: int| 0u64));
    }
    v
}

fn write_body(b: &mut BodyState, c: &Component, offset: u32, value: u64)
    ensures
        final(b)@ == body_written(old(b)@, c@, offset, value),
{
    match c {
        Component::Velocity => {
            b.velocity = Some(set_axis(&b.velocity, offset, value));
        },
        Component::Transform => {
            b.transform = Some(set_axis(&b.transform, offset, value));
        },
        Component::State => {
            let mut slots: Vec<u64> = match b.state.take() {
                Some(v) => v,
                None => zero_slots(),
            };
            let slot: usize = (offset / STATE_SLOT_BYTES) as usize;
            if slot < slots.len() {
                slots.set(slot, value);
            }
            b.state = Some(slots);
        },
        Component::Active => {
            b.active = !equals_zero(value);
        },
        _ => {},
    }
}

/// Applies the writes of a run in order. The first that fails ends it; those before it
/// stay.
pub fn apply_writes(scene: &mut Scene, writes: &Vec<WorldWrite>) -> (r: Result<(), Error>)
    ensures
        (final(scene)@, r) == scene_after(old(scene)@, write_views(writes@)),
{
    let ghost views = write_views(writes@);
    let ghost goal = scene_after(scene@, views);
    let mut i: usize = 0;
    proof {
        assert(views.skip(0) =~= views);
    }
    while i < writes.len()
        invariant
            i <= writes.len(),
            views == write_views(writes@),
            goal == scene_after(old(scene)@, views),
            goal == scene_after(scene@, views.skip(i as int)),
        decreases writes.len() - i,
    {
        let w: &WorldWrite = &writes[i];
        proof {
            assert(views.skip(i as int)[0] == w@);
            assert(views.skip(i as int).drop_first() =~= views.skip(i + 1));
        }
        match apply_write(scene, w) {
            Some(e) => return Err(e),
            None => {},
        }
        i = i + 1;
    }
    Ok(())
}

fn apply_write(scene: &mut Scene, w: &WorldWrite) -> (r: Option<Error>)
    ensures
        match scene_written(old(scene)@, w@) {
            Ok(s) => r is None && final(scene)@ == s,
            Err(e) => r == Some(e) && final(scene)@ == old(scene)@,
        },
{
    if let Component::Field(name) = &w.component {
        if let Some(at) = scene.fields.find(name) {
            let idx: usize = (w.offset / STATE_SLOT_BYTES) as usize;
            proof {
                assert(scene@.fields[at as int] == (
                    scene.fields.entries@[at as int].0@,
                    scene.fields.entries@[at as int].1@,
                ));
            }
            if idx >= scene.fields.entries[at].1.cells.len() {
                return Some(error(Status::Invalid, 7));
            }
            write_cell(scene, at, idx, w.value);
            return None;
        }
    }
    let at: usize = match scene.entities.find(&EntityId(w.entity)) {
        Some(at) => at,
        None => return Some(error(Status::HandleStale, 5)),
    };
    let ghost before = scene@.entities;
    write_body(&mut scene.entities.entries[at].1, &w.component, w.offset, w.value);
    proof {
        assert(scene@.entities =~= before.update(
            at as int,
            (
                EntityId(w.entity),
                body_written(before[at as int].1, w@.component, w.offset, w.value),
            ),
        ));
    }
    None
}

/// Writes keep every grid full.
pub proof fn law_writes_keep_grids(s: SceneView, writes: Seq<WriteView>)
    requires
        s.well_formed(),
    ensures
        scene_after(s, writes).0.well_formed(),
    decreases writes.len(),
{
    if writes.len() > 0 {
        match scene_written(s, writes[0]) {
            Err(_) => {},
            Ok(next) => {
                if let ComponentView::Field(name) = writes[0].component {
                    lemma_assoc_place(s.fields, name);
                }
                assert(next.well_formed()) by {
                    assert forall|i: int| 0 <= i < next.fields.len() implies full_grid(
                        (#[trigger] next.fields[i]).1,
                    ) by {
                        assert(full_grid(s.fields[i].1));
                    }
                }
                law_writes_keep_grids(next, writes.drop_first());
            },
        }
    }
}

/// A write to a state slot that an entity has is read back by the next run.
pub proof fn law_written_slot_is_read(s: SceneView, entity: u128, offset: u32, value: u64)
    requires
        entity != 0,
        get_at(s.entities, EntityId(entity)) matches Some(b) && offset / STATE_SLOT_BYTES < (
        match b.state {
            Some(v) => v.len(),
            None => MAX_STATE_SLOTS as nat,
        }),
    ensures
        ({
            let w = WriteView { entity, component: ComponentView::State, offset, value };
            let at = ComponentRefView { entity, component: ComponentView::State, offset };
            scene_written(s, w) matches Ok(next) && field_read(
                RuntimeView { scene: next, pending: Seq::empty(), overlay: Seq::empty() },
                at,
            ) == Ok::<u64, Error>(value)
        }),
{
    let b = get_at(s.entities, EntityId(entity))->0;
    crate::table::law_set_then_get(
        s.entities,
        EntityId(entity),
        body_written(b, ComponentView::State, offset, value),
        EntityId(entity),
    );
}

/// Whether cells that a run wrote lie in copies of whole fields, and in no list.
pub open spec fn cells_apart(r: RuntimeView) -> bool {
    &&& forall|at: ComponentRefView|
        grid_of(r.scene, at.component) is Some ==> #[trigger] pending_get(r.pending, at) is None
    &&& forall|name: Seq<char>|
        #![trigger assoc_get(r.overlay, name)]
        (assoc_get(r.overlay, name) is Some && assoc_get(r.scene.fields, name) is Some)
            ==> assoc_get(r.overlay, name)->0.len() == assoc_get(
            r.scene.fields,
            name,
        )->0.cells.len()
}

/// Whether two targets are one: they are equal, or they name one cell of a field.
pub open spec fn same_target(s: SceneView, a: ComponentRefView, b: ComponentRefView) -> bool {
    a == b || (grid_of(s, a.component) is Some && a.component == b.component && a.offset
        / STATE_SLOT_BYTES == b.offset / STATE_SLOT_BYTES)
}

/// A run that has written nothing keeps cells apart, and every write leaves them so.
pub proof fn law_cells_stay_apart(r: RuntimeView, at: ComponentRefView, value: u64)
    ensures
        r.pending.len() == 0 && r.overlay.len() == 0 ==> cells_apart(r),
        cells_apart(r) ==> cells_apart(field_written(r, at, value)),
{
    if cells_apart(r) {
        let w = field_written(r, at, value);
        match grid_of(r.scene, at.component) {
            None => {
                assert forall|other: ComponentRefView|
                    grid_of(w.scene, other.component) is Some implies #[trigger] pending_get(
                    w.pending,
                    other,
                ) is None by {
                    law_pending_put_then_get(r.pending, at, value, other);
                }
            },
            Some((name, g)) => {
                assert forall|other: Seq<char>|
                    #![trigger assoc_get(w.overlay, other)]
                    (assoc_get(w.overlay, other) is Some && assoc_get(
                        w.scene.fields,
                        other,
                    ) is Some) implies assoc_get(w.overlay, other)->0.len() == assoc_get(
                    w.scene.fields,
                    other,
                )->0.cells.len() by {
                    lemma_overlay(r, at, value, other);
                }
            },
        }
    }
}

proof fn lemma_overlay(r: RuntimeView, at: ComponentRefView, value: u64, name: Seq<char>)
    requires
        grid_of(r.scene, at.component) is Some,
    ensures
        ({
            let (own, g) = grid_of(r.scene, at.component)->0;
            let cells = match assoc_get(r.overlay, own) {
                Some(c) => c,
                None => g.cells,
            };
            let idx = at.offset / STATE_SLOT_BYTES;
            assoc_get(field_written(r, at, value).overlay, name) == (if name == own {
                Some(
                    if idx < cells.len() {
                        cells.update(idx as int, value)
                    } else {
                        cells
                    },
                )
            } else {
                assoc_get(r.overlay, name)
            })
        }),
{
    let (own, g) = grid_of(r.scene, at.component)->0;
    let cells = match assoc_get(r.overlay, own) {
        Some(c) => c,
        None => g.cells,
    };
    let idx = at.offset / STATE_SLOT_BYTES;
    law_insert_then_get(
        r.overlay,
        own,
        if idx < cells.len() {
            cells.update(idx as int, value)
        } else {
            cells
        },
        name,
    );
}

/// What a run writes it reads back, whether the entity exists or not, but for a cell
/// outside of its field, which cannot be read. Every other target reads as before, and
/// the scene is left as it was.
pub proof fn law_write_is_read_back(
    r: RuntimeView,
    at: ComponentRefView,
    value: u64,
    other: ComponentRefView,
)
    requires
        cells_apart(r),
    ensures
        field_written(r, at, value).scene == r.scene,
        field_read(field_written(r, at, value), at) == (match grid_of(r.scene, at.component) {
            Some((_, g)) => if at.offset / STATE_SLOT_BYTES < g.cells.len() {
                Ok(value)
            } else {
                Err(spec_error(Status::Invalid, 7))
            },
            None => Ok(value),
        }),
        !same_target(r.scene, at, other) ==> field_read(field_written(r, at, value), other)
            == field_read(r, other),
{
    assert(pending_get(r.pending, at) is None || grid_of(r.scene, at.component) is None);
    match grid_of(r.scene, at.component) {
        None => {
            law_pending_put_then_get(r.pending, at, value, at);
            law_pending_put_then_get(r.pending, at, value, other);
        },
        Some((name, g)) => {
            lemma_overlay(r, at, value, name);
            if let Some((second, _)) = grid_of(r.scene, other.component) {
                lemma_overlay(r, at, value, second);
            }
        },
    }
}

} // verus!
