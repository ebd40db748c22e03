//! What a program declares, before it is lowered.

use crate::expr::{Expr, ExprView};
use crate::fault::text_view;
use crate::names::{NameMap, ViewMap};
use crate::units::Dim;
use vstd::prelude::*;

verus! {

/// The values of a sequence of texts.
pub open spec fn text_views(s: Seq<String>) -> Seq<Seq<char>> {
    s.map_values(|t: String| t@)
}

/// A statement of a rule body, its expressions as texts.
#[derive(Debug)]
pub enum UpdateStmt {
    /// `let name = expr`.
    Let(String, String),
    /// `repeat n { … }`.
    Repeat(usize, Vec<UpdateStmt>),
    /// `for name in lo..hi { … }`, the bounds integers.
    For(String, i64, i64, Vec<UpdateStmt>),
    /// `break` or `break if cond`.
    Break(Option<String>),
    /// `continue` or `continue if cond`.
    Continue(Option<String>),
    /// The end of an iteration of `repeat n until cond`, where the loop ends if the
    /// condition holds, whether the iteration was continued or not.
    Until(String),
}

/// The mathematical value of an [`UpdateStmt`].
pub enum UpdateView {
    Let(Seq<char>, Seq<char>),
    Repeat(usize, Seq<UpdateView>),
    For(Seq<char>, i64, i64, Seq<UpdateView>),
    Break(Option<Seq<char>>),
    Continue(Option<Seq<char>>),
    Until(Seq<char>),
}

impl UpdateStmt {
    /// The mathematical value.
    pub open spec fn model(&self) -> UpdateView
        decreases self,
    {
        match self {
            UpdateStmt::Let(name, text) => UpdateView::Let(name@, text@),
            UpdateStmt::Repeat(n, body) => UpdateView::Repeat(
                *n,
                Seq::new(
                    body@.len(),
                    |i: int|
                        if 0 <= i < body@.len() {
                            body@[i].model()
                        } else {
                            UpdateView::Break(None)
                        },
                ),
            ),
            UpdateStmt::For(name, lo, hi, body) => UpdateView::For(
                name@,
                *lo,
                *hi,
                Seq::new(
                    body@.len(),
                    |i: int|
                        if 0 <= i < body@.len() {
                            body@[i].model()
                        } else {
                            UpdateView::Break(None)
                        },
                ),
            ),
            UpdateStmt::Break(c) => UpdateView::Break(text_view(*c)),
            UpdateStmt::Continue(c) => UpdateView::Continue(text_view(*c)),
            UpdateStmt::Until(c) => UpdateView::Until(c@),
        }
    }
}

impl View for UpdateStmt {
    type V = UpdateView;

    open spec fn view(&self) -> UpdateView {
        self.model()
    }
}

/// The values of a sequence of statements.
pub open spec fn update_views(s: Seq<UpdateStmt>) -> Seq<UpdateView> {
    s.map_values(|u: UpdateStmt| u@)
}

/// A system declaration, `kind { key = value; … }`. Numbers are held by their bits.
pub struct SystemDecl {
    pub kind: String,
    pub params: NameMap<u64>,
    /// Parameters that are lists of numbers.
    pub vec_params: ViewMap<Vec<u64>>,
    /// Rules: the text of the left side and that of the expression.
    pub update: ViewMap<String>,
    /// Statements that run before the rules.
    pub update_stmts: Vec<UpdateStmt>,
    /// Parameters whose raw text counts.
    pub string_params: ViewMap<String>,
    /// Units of scalar parameters.
    pub param_units: ViewMap<Dim>,
    /// Where the system starts in the source.
    pub byte_offset: usize,
    /// The module that the system comes from; empty for the root.
    pub namespace: String,
}

/// The mathematical value of a [`SystemDecl`].
pub struct SystemDeclView {
    pub kind: Seq<char>,
    pub params: Seq<(Seq<char>, u64)>,
    pub vec_params: Seq<(Seq<char>, Seq<u64>)>,
    pub update: Seq<(Seq<char>, Seq<char>)>,
    pub update_stmts: Seq<UpdateView>,
    pub string_params: Seq<(Seq<char>, Seq<char>)>,
    pub param_units: Seq<(Seq<char>, Dim)>,
    pub byte_offset: usize,
    pub namespace: Seq<char>,
}

impl View for SystemDecl {
    type V = SystemDeclView;

    open spec fn view(&self) -> SystemDeclView {
        SystemDeclView {
            kind: self.kind@,
            params: self.params@,
            vec_params: self.vec_params@,
            update: self.update@,
            update_stmts: update_views(self.update_stmts@),
            string_params: self.string_params@,
            param_units: self.param_units@,
            byte_offset: self.byte_offset,
            namespace: self.namespace@,
        }
    }
}

/// A declared function: parameters, statements, and the expression it returns.
pub struct FuncDecl {
    pub name: String,
    /// The module that the function belongs to; empty for the root.
    pub namespace: String,
    pub params: Vec<String>,
    pub stmts: Vec<UpdateStmt>,
    pub body: Expr,
}

/// The mathematical value of a [`FuncDecl`].
pub struct FuncView {
    pub name: Seq<char>,
    pub namespace: Seq<char>,
    pub params: Seq<Seq<char>>,
    pub stmts: Seq<UpdateView>,
    pub body: ExprView,
}

impl View for FuncDecl {
    type V = FuncView;

    open spec fn view(&self) -> FuncView {
        FuncView {
            name: self.name@,
            namespace: self.namespace@,
            params: text_views(self.params@),
            stmts: update_views(self.stmts@),
            body: self.body@,
        }
    }
}

/// A copy of an optional text.
fn copy_text(t: &Option<String>) -> (r: Option<String>)
    ensures
        text_view(r) == text_view(*t),
{
    match t {
        Some(s) => Some(s.clone()),
        None => None,
    }
}

/// A copy of a statement list.
pub fn copy_stmts(stmts: &Vec<UpdateStmt>) -> (r: Vec<UpdateStmt>)
    ensures
        update_views(r@) == update_views(stmts@),
    decreases stmts,
{
    let mut copies: Vec<UpdateStmt> = Vec::new();
    let mut i: usize = 0;
    while i < stmts.len()
        invariant
            i <= stmts.len(),
            copies@.len() == i,
            forall|k: int| 0 <= k < i ==> (#[trigger] copies@[k])@ == stmts@[k]@,
        decreases stmts.len() - i,
    {
        let ghost was = stmts@[i as int]@;
        let copy: UpdateStmt = match &stmts[i] {
            UpdateStmt::Let(name, text) => UpdateStmt::Let(name.clone(), text.clone()),
            UpdateStmt::Repeat(n, body) => {
                let c = UpdateStmt::Repeat(*n, copy_stmts(body));
                proof {
                    assert(was->Repeat_1 =~= update_views(body@));
                    assert(c@->Repeat_1 =~= update_views(c->Repeat_1@));
                }
                c
            },
            UpdateStmt::For(name, lo, hi, body) => {
                let c = UpdateStmt::For(name.clone(), *lo, *hi, copy_stmts(body));
                proof {
                    assert(was->For_3 =~= update_views(body@));
                    assert(c@->For_3 =~= update_views(c->For_3@));
                }
                c
            },
            UpdateStmt::Break(c) => UpdateStmt::Break(copy_text(c)),
            UpdateStmt::Continue(c) => UpdateStmt::Continue(copy_text(c)),
            UpdateStmt::Until(c) => UpdateStmt::Until(c.clone()),
        };
        copies.push(copy);
        i = i + 1;
    }
    proof {
        assert(update_views(copies@) =~= update_views(stmts@));
    }
    copies
}

/// A copy of a list of texts.
pub fn copy_texts(texts: &Vec<String>) -> (r: Vec<String>)
    ensures
        text_views(r@) == text_views(texts@),
{
    let mut copies: Vec<String> = Vec::new();
    let mut i: usize = 0;
    while i < texts.len()
        invariant
            i <= texts.len(),
            copies@.len() == i,
            forall|k: int| 0 <= k < i ==> (#[trigger] copies@[k])@ == texts@[k]@,
        decreases texts.len() - i,
    {
        copies.push(texts[i].clone());
        i = i + 1;
    }
    proof {
        assert(text_views(copies@) =~= text_views(texts@));
    }
    copies
}

impl FuncDecl {
    /// A copy of the function under another name and in another module.
    pub fn renamed(&self, name: String, namespace: String) -> (r: FuncDecl)
        ensures
            r@ == (FuncView { name: name@, namespace: namespace@, ..self@ }),
    {
        FuncDecl {
            name,
            namespace,
            params: copy_texts(&self.params),
            stmts: copy_stmts(&self.stmts),
            body: self.body.duplicate(),
        }
    }
}

/// Three numbers by their bits.
#[derive(Clone, Copy, Debug, PartialEq, Eq, Structural)]
pub struct Triple {
    pub x: u64,
    pub y: u64,
    pub z: u64,
}

/// The shape that a body collides with.
#[derive(Debug)]
pub enum ColliderDecl {
    Box { dims: Triple },
    Sphere { radius: u64 },
    ConvexHull { points: Vec<Triple> },
}

/// The mathematical value of a [`ColliderDecl`].
pub enum ColliderView {
    Box { dims: Triple },
    Sphere { radius: u64 },
    ConvexHull { points: Seq<Triple> },
}

impl View for ColliderDecl {
    type V = ColliderView;

    open spec fn view(&self) -> ColliderView {
        match self {
            ColliderDecl::Box { dims } => ColliderView::Box { dims: *dims },
            ColliderDecl::Sphere { radius } => ColliderView::Sphere { radius: *radius },
            ColliderDecl::ConvexHull { points } => ColliderView::ConvexHull { points: points@ },
        }
    }
}

/// How an entity is drawn.
#[derive(Debug)]
pub struct RenderStyle {
    /// Point, sphere, box or capsule, counted from zero.
    pub shape: Option<u8>,
    /// A shape declared in the world.
    pub shape_name: Option<String>,
    pub size: Option<u64>,
    pub size3: Option<Triple>,
    pub opacity: Option<u64>,
    pub glow: Option<u64>,
    pub label: Option<bool>,
}

/// The mathematical value of a [`RenderStyle`].
pub struct RenderView {
    pub shape: Option<u8>,
    pub shape_name: Option<Seq<char>>,
    pub size: Option<u64>,
    pub size3: Option<Triple>,
    pub opacity: Option<u64>,
    pub glow: Option<u64>,
    pub label: Option<bool>,
}

impl View for RenderStyle {
    type V = RenderView;

    open spec fn view(&self) -> RenderView {
        RenderView {
            shape: self.shape,
            shape_name: text_view(self.shape_name),
            size: self.size,
            size3: self.size3,
            opacity: self.opacity,
            glow: self.glow,
            label: self.label,
        }
    }
}

/// A style that says nothing.
pub open spec fn plain_style() -> RenderView {
    RenderView {
        shape: None,
        shape_name: None,
        size: None,
        size3: None,
        opacity: None,
        glow: None,
        label: None,
    }
}

impl RenderStyle {
    /// A style that says nothing.
    pub fn new() -> (r: RenderStyle)
        ensures
            r@ == plain_style(),
    {
        RenderStyle {
            shape: None,
            shape_name: None,
            size: None,
            size3: None,
            opacity: None,
            glow: None,
            label: None,
        }
    }
}

/// An entity declaration.
pub struct EntityDecl {
    pub name: String,
    pub position: Option<Triple>,
    pub velocity: Option<Triple>,
    pub state: Option<Vec<u64>>,
    /// The names of the state slots, where any were given.
    pub state_names: Option<Vec<Option<String>>>,
    /// The dimensions of the state slots, where any were given.
    pub state_units: Option<Vec<Option<Dim>>>,
    pub mass: Option<u64>,
    pub dynamic: Option<bool>,
    pub nbody: Option<bool>,
    pub parent: Option<String>,
    pub restitution: Option<u64>,
    pub friction: Option<u64>,
    pub collider: Option<ColliderDecl>,
    pub camera: Option<bool>,
    pub color: Option<u32>,
    pub render: Option<RenderStyle>,
}

/// The mathematical value of an [`EntityDecl`].
pub struct EntityView {
    pub name: Seq<char>,
    pub position: Option<Triple>,
    pub velocity: Option<Triple>,
    pub state: Option<Seq<u64>>,
    pub state_names: Option<Seq<Option<Seq<char>>>>,
    pub state_units: Option<Seq<Option<Dim>>>,
    pub mass: Option<u64>,
    pub dynamic: Option<bool>,
    pub nbody: Option<bool>,
    pub parent: Option<Seq<char>>,
    pub restitution: Option<u64>,
    pub friction: Option<u64>,
    pub collider: Option<ColliderView>,
    pub camera: Option<bool>,
    pub color: Option<u32>,
    pub render: Option<RenderView>,
}

/// The value of an optional list.
pub open spec fn list_view<T>(l: Option<Vec<T>>) -> Option<Seq<T>> {
    match l {
        Some(v) => Some(v@),
        None => None,
    }
}

/// The vector whose first component has a name: `pos` for `pos.0`. The vector's name
/// stands for that component too.
pub open spec fn vector_name(n: Seq<char>) -> Option<Seq<char>> {
    if n.len() > 2 && n[n.len() - 2] == '.' && n[n.len() - 1] == '0' {
        Some(n.take(n.len() - 2))
    } else {
        None
    }
}

/// Finds the vector whose first component has a name.
pub fn vector_of(name: &str) -> (r: Option<String>)
    ensures
        vector_name(name@) == (match r {
            Some(v) => Some(v@),
            None => None,
        }),
{
    let len: usize = name.unicode_len();
    if len > 2 && name.get_char(len - 2) == '.' && name.get_char(len - 1) == '0' {
        let v: String = crate::text::part(name, 0, len - 2);
        proof {
            assert(v@ =~= name@.take(len - 2));
        }
        Some(v)
    } else {
        None
    }
}

/// The values of slot names.
pub open spec fn slot_names(s: Seq<Option<String>>) -> Seq<Option<Seq<char>>> {
    s.map_values(|n: Option<String>| text_view(n))
}

/// The value of an optional list of slot names.
pub open spec fn names_list_view(l: Option<Vec<Option<String>>>) -> Option<
    Seq<Option<Seq<char>>>,
> {
    match l {
        Some(v) => Some(slot_names(v@)),
        None => None,
    }
}

impl View for EntityDecl {
    type V = EntityView;

    open spec fn view(&self) -> EntityView {
        EntityView {
            name: self.name@,
            position: self.position,
            velocity: self.velocity,
            state: list_view(self.state),
            state_names: names_list_view(self.state_names),
            state_units: list_view(self.state_units),
            mass: self.mass,
            dynamic: self.dynamic,
            nbody: self.nbody,
            parent: text_view(self.parent),
            restitution: self.restitution,
            friction: self.friction,
            collider: match self.collider {
                Some(c) => Some(c@),
                None => None,
            },
            camera: self.camera,
            color: self.color,
            render: match self.render {
                Some(r) => Some(r@),
                None => None,
            },
        }
    }
}

/// An entity of which nothing but the name is given.
pub open spec fn bare_entity(name: Seq<char>) -> EntityView {
    EntityView {
        name,
        position: None,
        velocity: None,
        state: None,
        state_names: None,
        state_units: None,
        mass: None,
        dynamic: None,
        nbody: None,
        parent: None,
        restitution: None,
        friction: None,
        collider: None,
        camera: None,
        color: None,
        render: None,
    }
}

impl EntityDecl {
    /// An entity of which nothing but the name is given.
    pub fn named(name: String) -> (r: EntityDecl)
        ensures
            r@ == bare_entity(name@),
    {
        EntityDecl {
            name,
            position: None,
            velocity: None,
            state: None,
            state_names: None,
            state_units: None,
            mass: None,
            dynamic: None,
            nbody: None,
            parent: None,
            restitution: None,
            friction: None,
            collider: None,
            camera: None,
            color: None,
            render: None,
        }
    }
}

/// The values of a sequence of entities.
pub open spec fn entity_views(s: Seq<EntityDecl>) -> Seq<EntityView> {
    s.map_values(|e: EntityDecl| e@)
}

/// A pool of entity slots: `count` copies of one declaration.
pub struct PoolDecl {
    pub name: String,
    pub count: u32,
    pub decl: EntityDecl,
}

/// The mathematical value of a [`PoolDecl`].
pub struct PoolView {
    pub name: Seq<char>,
    pub count: u32,
    pub decl: EntityView,
}

impl View for PoolDecl {
    type V = PoolView;

    open spec fn view(&self) -> PoolView {
        PoolView { name: self.name@, count: self.count, decl: self.decl@ }
    }
}

/// The values of a sequence of pools.
pub open spec fn pool_views(s: Seq<PoolDecl>) -> Seq<PoolView> {
    s.map_values(|p: PoolDecl| p@)
}

/// A channel with its initial value.
pub struct ChanDecl {
    pub name: String,
    pub value: u64,
}

/// The values of a sequence of channels.
pub open spec fn chan_views(s: Seq<ChanDecl>) -> Seq<(Seq<char>, u64)> {
    s.map_values(|c: ChanDecl| (c.name@, c.value))
}

/// A grid field.
pub struct FieldDecl {
    pub name: String,
    pub width: usize,
    pub height: usize,
    pub depth: usize,
    /// Bits of the cell size.
    pub dx: u64,
}

/// The mathematical value of a [`FieldDecl`].
pub struct FieldView {
    pub name: Seq<char>,
    pub width: usize,
    pub height: usize,
    pub depth: usize,
    pub dx: u64,
}

impl View for FieldDecl {
    type V = FieldView;

    open spec fn view(&self) -> FieldView {
        FieldView {
            name: self.name@,
            width: self.width,
            height: self.height,
            depth: self.depth,
            dx: self.dx,
        }
    }
}

/// The values of a sequence of fields.
pub open spec fn field_views(s: Seq<FieldDecl>) -> Seq<FieldView> {
    s.map_values(|f: FieldDecl| f@)
}

/// One part of a declared shape.
pub struct ShapePart {
    /// Sphere, box, capsule, drawing, hull or polyhedron, counted from one.
    pub kind: u8,
    pub size: Triple,
    pub offset: Triple,
    /// The path of a drawing.
    pub path: Option<String>,
    pub points: Vec<Triple>,
    pub faces: Vec<Vec<u32>>,
    pub scale: u64,
}

/// The mathematical value of a [`ShapePart`].
pub struct PartView {
    pub kind: u8,
    pub size: Triple,
    pub offset: Triple,
    pub path: Option<Seq<char>>,
    pub points: Seq<Triple>,
    pub faces: Seq<Seq<u32>>,
    pub scale: u64,
}

/// The values of a list of faces.
pub open spec fn face_views(s: Seq<Vec<u32>>) -> Seq<Seq<u32>> {
    s.map_values(|f: Vec<u32>| f@)
}

impl View for ShapePart {
    type V = PartView;

    open spec fn view(&self) -> PartView {
        PartView {
            kind: self.kind,
            size: self.size,
            offset: self.offset,
            path: text_view(self.path),
            points: self.points@,
            faces: face_views(self.faces@),
            scale: self.scale,
        }
    }
}

/// A declared shape: its parts.
pub struct ShapeDecl {
    pub parts: Vec<ShapePart>,
}

/// The values of a list of parts.
pub open spec fn part_views(s: Seq<ShapePart>) -> Seq<PartView> {
    s.map_values(|p: ShapePart| p@)
}

impl View for ShapeDecl {
    type V = Seq<PartView>;

    open spec fn view(&self) -> Seq<PartView> {
        part_views(self.parts@)
    }
}

/// The declared world.
pub struct WorldModel {
    pub gravity: Triple,
    pub title: Option<String>,
    pub entities: Vec<EntityDecl>,
    pub pools: Vec<PoolDecl>,
    pub channels: Vec<ChanDecl>,
    pub fields: Vec<FieldDecl>,
    pub shapes: ViewMap<ShapeDecl>,
    pub params: NameMap<u64>,
    pub param_units: ViewMap<Dim>,
    /// For every name of a parameter, the one that it is kept under.
    pub param_alias: ViewMap<String>,
}

/// The mathematical value of a [`WorldModel`].
pub struct ModelView {
    pub gravity: Triple,
    pub title: Option<Seq<char>>,
    pub entities: Seq<EntityView>,
    pub pools: Seq<PoolView>,
    pub channels: Seq<(Seq<char>, u64)>,
    pub fields: Seq<FieldView>,
    pub shapes: Seq<(Seq<char>, Seq<PartView>)>,
    pub params: Seq<(Seq<char>, u64)>,
    pub param_units: Seq<(Seq<char>, Dim)>,
    pub param_alias: Seq<(Seq<char>, Seq<char>)>,
}

impl View for WorldModel {
    type V = ModelView;

    open spec fn view(&self) -> ModelView {
        ModelView {
            gravity: self.gravity,
            title: text_view(self.title),
            entities: entity_views(self.entities@),
            pools: pool_views(self.pools@),
            channels: chan_views(self.channels@),
            fields: field_views(self.fields@),
            shapes: self.shapes@,
            params: self.params@,
            param_units: self.param_units@,
            param_alias: self.param_alias@,
        }
    }
}

/// A world of which nothing is declared.
pub open spec fn bare_world() -> ModelView {
    ModelView {
        gravity: Triple { x: 0, y: 0, z: 0 },
        title: None,
        entities: Seq::empty(),
        pools: Seq::empty(),
        channels: Seq::empty(),
        fields: Seq::empty(),
        shapes: Seq::empty(),
        params: Seq::empty(),
        param_units: Seq::empty(),
        param_alias: Seq::empty(),
    }
}

impl WorldModel {
    /// A world of which nothing is declared.
    pub fn new() -> (r: WorldModel)
        ensures
            r@ == bare_world(),
    {
        let r = WorldModel {
            gravity: Triple { x: 0, y: 0, z: 0 },
            title: None,
            entities: Vec::new(),
            pools: Vec::new(),
            channels: Vec::new(),
            fields: Vec::new(),
            shapes: ViewMap::new(),
            params: NameMap::new(),
            param_units: ViewMap::new(),
            param_alias: ViewMap::new(),
        };
        proof {
            assert(r@.entities =~= bare_world().entities);
            assert(r@.pools =~= bare_world().pools);
            assert(r@.channels =~= bare_world().channels);
            assert(r@.fields =~= bare_world().fields);
        }
        r
    }
}

/// A parsed program: the world, its systems, and its functions.
pub struct ParsedProgram {
    pub model: WorldModel,
    pub systems: Vec<SystemDecl>,
    pub funcs: Vec<FuncDecl>,
}

/// The mathematical value of a [`ParsedProgram`].
pub struct ProgramView {
    pub model: ModelView,
    pub systems: Seq<SystemDeclView>,
    pub funcs: Seq<FuncView>,
}

/// The values of a sequence of systems.
pub open spec fn system_decl_views(s: Seq<SystemDecl>) -> Seq<SystemDeclView> {
    s.map_values(|d: SystemDecl| d@)
}

/// The values of a sequence of functions.
pub open spec fn func_views(s: Seq<FuncDecl>) -> Seq<FuncView> {
    s.map_values(|f: FuncDecl| f@)
}

impl View for ParsedProgram {
    type V = ProgramView;

    open spec fn view(&self) -> ProgramView {
        ProgramView {
            model: self.model@,
            systems: system_decl_views(self.systems@),
            funcs: func_views(self.funcs@),
        }
    }
}

} // verus!
