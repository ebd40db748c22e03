//! What names stand for while a rule is lowered.

use crate::expr::PropKind;
use crate::names::{assoc_get, NameMap};
use vstd::prelude::*;

verus! {

/// The register stored for a property of an entity: that of the first entry with
/// that key.
pub open spec fn reg_get(s: Seq<(u128, PropKind, u32)>, id: u128, kind: PropKind) -> Option<u32>
    decreases s.len(),
{
    if s.len() == 0 {
        None
    } else if s[0].0 == id && s[0].1 == kind {
        Some(s[0].2)
    } else {
        reg_get(s.drop_first(), id, kind)
    }
}

/// Registers that hold properties of entities.
pub struct RegMap {
    pub entries: Vec<(u128, PropKind, u32)>,
}

impl View for RegMap {
    type V = Seq<(u128, PropKind, u32)>;

    open spec fn view(&self) -> Seq<(u128, PropKind, u32)> {
        self.entries@
    }
}

impl RegMap {
    /// No registers.
    pub fn new() -> (r: RegMap)
        ensures
            r@ == Seq::<(u128, PropKind, u32)>::empty(),
    {
        RegMap { entries: Vec::new() }
    }

    /// The register for a property of an entity.
    pub fn get(&self, id: u128, kind: PropKind) -> (r: Option<u32>)
        ensures
            r == reg_get(self@, id, kind),
    {
        let mut i: usize = 0;
        proof {
            assert(self@.skip(0) =~= self@);
        }
        while i < self.entries.len()
            invariant
                i <= self.entries.len(),
                reg_get(self@, id, kind) == reg_get(self@.skip(i as int), id, kind),
            decreases self.entries.len() - i,
        {
            proof {
                assert(self@.skip(i as int).drop_first() =~= self@.skip(i + 1));
            }
            let entry: (u128, PropKind, u32) = self.entries[i];
            if entry.0 == id && entry.1 == kind {
                return Some(entry.2);
            }
            i = i + 1;
        }
        None
    }
}

/// The named state slots of one entity.
pub type Layout = Seq<(Seq<char>, usize)>;

/// The layout stored for an entity, if it has one.
pub open spec fn layout_get(s: Seq<(u128, Layout)>, id: u128) -> Option<Layout>
    decreases s.len(),
{
    if s.len() == 0 {
        None
    } else if s[0].0 == id {
        Some(s[0].1)
    } else {
        layout_get(s.drop_first(), id)
    }
}

/// The layout of an entity, empty where it declares no names.
pub open spec fn layout_of(s: Seq<(u128, Layout)>, id: u128) -> Layout {
    match layout_get(s, id) {
        Some(l) => l,
        None => Seq::empty(),
    }
}

/// The named state slots of every entity that declares names.
pub struct Layouts {
    pub entries: Vec<(u128, NameMap<usize>)>,
}

impl View for Layouts {
    type V = Seq<(u128, Layout)>;

    open spec fn view(&self) -> Seq<(u128, Layout)> {
        self.entries@.map_values(|e: (u128, NameMap<usize>)| (e.0, e.1@))
    }
}

impl Layouts {
    /// No layouts.
    pub fn new() -> (r: Layouts)
        ensures
            r@ == Seq::<(u128, Layout)>::empty(),
    {
        let r = Layouts { entries: Vec::new() };
        proof {
            assert(r@ =~= Seq::<(u128, Layout)>::empty());
        }
        r
    }

    /// The layout of an entity.
    pub fn get(&self, id: u128) -> (r: Option<&NameMap<usize>>)
        ensures
            layout_get(self@, id) == (match r {
                Some(m) => Some(m@),
                None => None,
            }),
    {
        let mut i: usize = 0;
        proof {
            assert(self@.skip(0) =~= self@);
        }
        while i < self.entries.len()
            invariant
                i <= self.entries.len(),
                layout_get(self@, id) == layout_get(self@.skip(i as int), id),
            decreases self.entries.len() - i,
        {
            proof {
                assert(self@.skip(i as int)[0] == (self.entries@[i as int].0, self.entries@[i as int].1@));
                assert(self@.skip(i as int).drop_first() =~= self@.skip(i + 1));
            }
            if self.entries[i].0 == id {
                return Some(&self.entries[i].1);
            }
            i = i + 1;
        }
        None
    }

    /// A copy of the layout of an entity, empty where it has none.
    pub fn layout(&self, id: u128) -> (r: NameMap<usize>)
        ensures
            r@ == layout_of(self@, id),
    {
        match self.get(id) {
            Some(m) => m.duplicate(),
            None => NameMap::new(),
        }
    }

    /// A copy.
    pub fn duplicate(&self) -> (r: Layouts)
        ensures
            r@ == self@,
    {
        let mut r = Layouts::new();
        let mut i: usize = 0;
        while i < self.entries.len()
            invariant
                i <= self.entries.len(),
                r@ == self@.take(i as int),
            decreases self.entries.len() - i,
        {
            let ghost before = r@;
            r.entries.push((self.entries[i].0, self.entries[i].1.duplicate()));
            proof {
                assert(r@ =~= before.push(self@[i as int]));
                assert(r@ =~= self@.take(i + 1));
            }
            i = i + 1;
        }
        proof {
            assert(self@.take(self@.len() as int) =~= self@);
        }
        r
    }
}

/// The names known to a whole program: entities, layouts, functions, grid fields
/// with their widths and heights, the namespace of the rule, and parameters.
pub struct Scope {
    pub entity_map: NameMap<u128>,
    pub state_names_by_id: Layouts,
    pub func_ids: NameMap<u64>,
    pub field_dims: NameMap<(u32, u32)>,
    pub namespace: String,
    pub param_names: NameMap<()>,
}

/// The mathematical value of a [`Scope`].
pub struct ScopeView {
    pub entity_map: Seq<(Seq<char>, u128)>,
    pub state_names_by_id: Seq<(u128, Layout)>,
    pub func_ids: Seq<(Seq<char>, u64)>,
    pub field_dims: Seq<(Seq<char>, (u32, u32))>,
    pub namespace: Seq<char>,
    pub param_names: Seq<(Seq<char>, ())>,
}

impl View for Scope {
    type V = ScopeView;

    open spec fn view(&self) -> ScopeView {
        ScopeView {
            entity_map: self.entity_map@,
            state_names_by_id: self.state_names_by_id@,
            func_ids: self.func_ids@,
            field_dims: self.field_dims@,
            namespace: self.namespace@,
            param_names: self.param_names@,
        }
    }
}

impl Scope {
    /// A copy, for a rule in another namespace.
    pub fn within(&self, namespace: &String) -> (r: Scope)
        ensures
            r@ == (ScopeView { namespace: namespace@, ..self@ }),
    {
        Scope {
            entity_map: self.entity_map.duplicate(),
            state_names_by_id: self.state_names_by_id.duplicate(),
            func_ids: self.func_ids.duplicate(),
            field_dims: self.field_dims.duplicate(),
            namespace: namespace.clone(),
            param_names: self.param_names.duplicate(),
        }
    }
}

/// The parts of a lowering context that stay fixed while locals are bound.
pub struct LowerParts<'a> {
    /// Registers of the own state slots.
    pub slot_regs: &'a Vec<u32>,
    /// Registers of other entities' state slots.
    pub ref_regs: &'a RegMap,
    /// Registers of other entities' properties.
    pub prop_regs: &'a RegMap,
    /// Named state slots of the own entity.
    pub state_names: &'a NameMap<usize>,
    pub scope: &'a Scope,
    /// The entity whose rule is lowered; zero in function bodies.
    pub current_entity: u128,
}

/// The mathematical value of [`LowerParts`].
pub struct PartsView {
    pub slot_regs: Seq<u32>,
    pub ref_regs: Seq<(u128, PropKind, u32)>,
    pub prop_regs: Seq<(u128, PropKind, u32)>,
    pub state_names: Layout,
    pub scope: ScopeView,
    pub current_entity: u128,
}

impl<'a> View for LowerParts<'a> {
    type V = PartsView;

    open spec fn view(&self) -> PartsView {
        PartsView {
            slot_regs: self.slot_regs@,
            ref_regs: self.ref_regs@,
            prop_regs: self.prop_regs@,
            state_names: self.state_names@,
            scope: self.scope@,
            current_entity: self.current_entity,
        }
    }
}

/// A lowering context: the fixed parts and the registers of the locals.
pub struct LowerCtx<'a> {
    pub parts: &'a LowerParts<'a>,
    pub locals: &'a NameMap<u32>,
}

/// The mathematical value of a [`LowerCtx`].
pub struct CtxView {
    pub parts: PartsView,
    pub locals: Seq<(Seq<char>, u32)>,
}

impl<'a> View for LowerCtx<'a> {
    type V = CtxView;

    open spec fn view(&self) -> CtxView {
        CtxView { parts: self.parts@, locals: self.locals@ }
    }
}

impl<'a> LowerParts<'a> {
    /// The context with the given locals.
    pub fn ctx(&'a self, locals: &'a NameMap<u32>) -> (r: LowerCtx<'a>)
        ensures
            r@ == (CtxView { parts: self@, locals: locals@ }),
    {
        LowerCtx { parts: self, locals }
    }
}

/// The register of an own state slot, zero where it was not read.
pub open spec fn slot_reg(c: CtxView, slot: usize) -> u32 {
    if slot < c.parts.slot_regs.len() {
        c.parts.slot_regs[slot as int]
    } else {
        0
    }
}

/// The id of an entity; an unknown name gets one that no entity has.
pub open spec fn entity_of(c: CtxView, name: Seq<char>) -> u128 {
    match assoc_get(c.parts.scope.entity_map, name) {
        Some(id) => id,
        None => u128::MAX,
    }
}

/// The register of another entity's slot, zero where it was not read.
pub open spec fn ref_reg(c: CtxView, id: u128, slot: usize) -> u32 {
    match reg_get(c.parts.ref_regs, id, PropKind::State(slot)) {
        Some(r) => r,
        None => 0,
    }
}

/// The register of another entity's property, zero where it was not read.
pub open spec fn prop_reg(c: CtxView, id: u128, kind: PropKind) -> u32 {
    match reg_get(c.parts.prop_regs, id, kind) {
        Some(r) => r,
        None => 0,
    }
}

impl<'a> LowerCtx<'a> {
    /// Computes [`slot_reg`].
    pub fn slot(&self, slot: usize) -> (r: u32)
        ensures
            r == slot_reg(self@, slot),
    {
        if slot < self.parts.slot_regs.len() {
            self.parts.slot_regs[slot]
        } else {
            0
        }
    }

    /// Computes [`entity_of`].
    pub fn entity(&self, name: &str) -> (r: u128)
        ensures
            r == entity_of(self@, name@),
    {
        match self.parts.scope.entity_map.get(name) {
            Some(id) => *id,
            None => u128::MAX,
        }
    }

    /// Computes [`ref_reg`].
    pub fn reference(&self, id: u128, slot: usize) -> (r: u32)
        ensures
            r == ref_reg(self@, id, slot),
    {
        match self.parts.ref_regs.get(id, PropKind::State(slot)) {
            Some(r) => r,
            None => 0,
        }
    }

    /// Computes [`prop_reg`].
    pub fn property(&self, id: u128, kind: PropKind) -> (r: u32)
        ensures
            r == prop_reg(self@, id, kind),
    {
        match self.parts.prop_regs.get(id, kind) {
            Some(r) => r,
            None => 0,
        }
    }
}

} // verus!
