//! Programs made of several modules. What belongs to the world merges flatly;
//! functions and parameters keep their module's name in front.

use crate::decl::{
    chan_views, copy_texts, entity_views, field_views, func_views, pool_views, system_decl_views,
    text_views, ChanDecl, EntityDecl, EntityView, FieldDecl, FieldView, FuncDecl, FuncView,
    ModelView, ParsedProgram, PartView, PoolDecl, PoolView, ProgramView, ShapeDecl, SystemDecl,
    SystemDeclView, WorldModel,
};
use crate::fault::{invalid_at, reject_at, Fault, FaultView};
use crate::names::{assoc_get, assoc_insert, law_insert_then_get, same, NameMap, ViewMap};
use crate::numbers::{Numbers, NumbersView};
use crate::parse::{parse, program_of, program_result};
use crate::text::{dotted, joined, qualified};
use crate::units::Dim;
use vstd::prelude::*;
use vstd::string::*;

verus! {

/// A loaded module.
pub struct ModuleInfo {
    /// The namespace that the module's own rules use: its first alias.
    pub ns: String,
    /// Every namespace that the module was imported under.
    pub aliases: Vec<String>,
    /// The path to show.
    pub path: String,
    pub parsed: ParsedProgram,
}

/// The mathematical value of a [`ModuleInfo`].
pub struct ModuleView {
    pub ns: Seq<char>,
    pub aliases: Seq<Seq<char>>,
    pub path: Seq<char>,
    pub parsed: ProgramView,
}

impl View for ModuleInfo {
    type V = ModuleView;

    open spec fn view(&self) -> ModuleView {
        ModuleView {
            ns: self.ns@,
            aliases: text_views(self.aliases@),
            path: self.path@,
            parsed: self.parsed@,
        }
    }
}

/// The values of a sequence of modules.
pub open spec fn module_views(s: Seq<ModuleInfo>) -> Seq<ModuleView> {
    s.map_values(|m: ModuleInfo| m@)
}

/// A name inside a namespace; the empty namespace adds nothing.
pub open spec fn scoped(space: Seq<char>, name: Seq<char>) -> Seq<char> {
    if space.len() == 0 {
        name
    } else {
        qualified(space, name)
    }
}

fn scope_name(space: &str, name: &str) -> (r: String)
    ensures
        r@ == scoped(space@, name@),
{
    if space.unicode_len() == 0 {
        name.to_owned()
    } else {
        dotted(space, name)
    }
}

/// What is merged so far, and which module owns each entity and pool name.
pub struct Merge {
    pub program: ParsedProgram,
    pub owners: ViewMap<String>,
}

/// The mathematical value of a [`Merge`].
pub struct MergeView {
    pub program: ProgramView,
    pub owners: Seq<(Seq<char>, Seq<char>)>,
}

impl View for Merge {
    type V = MergeView;

    open spec fn view(&self) -> MergeView {
        MergeView { program: self.program@, owners: self.owners@ }
    }
}

/// The state with another world.
pub open spec fn with_model(s: MergeView, model: ModelView) -> MergeView {
    MergeView { program: ProgramView { model, ..s.program }, ..s }
}

/// The message for an entity that two modules declare.
pub open spec fn both_text(name: Seq<char>, prev: Seq<char>, who: Seq<char>) -> Seq<char> {
    "entity `"@ + name + "` defined in both `"@ + prev + "` and `"@ + who + "`"@
}

fn both_message(name: &str, prev: &str, who: &str) -> (r: String)
    ensures
        r@ == both_text(name@, prev@, who@),
{
    let mut r: String = joined("entity `", name);
    r.append("` defined in both `");
    r.append(prev);
    r.append("` and `");
    r.append(who);
    r.append("`");
    r
}

/// The message for a name that is declared twice; `kind` ends in a backquote.
pub open spec fn twice_text(kind: Seq<char>, name: Seq<char>) -> Seq<char> {
    kind + name + "` defined twice"@
}

fn twice_message(kind: &str, name: &str) -> (r: String)
    ensures
        r@ == twice_text(kind@, name@),
{
    let mut r: String = joined(kind, name);
    r.append("` defined twice");
    r
}

/// The state after the entities of a module.
pub open spec fn entities_in(s: MergeView, list: Seq<EntityView>, who: Seq<char>) -> Result<
    MergeView,
    FaultView,
>
    decreases list.len(),
{
    if list.len() == 0 {
        Ok(s)
    } else {
        let e = list[0];
        match assoc_get(s.owners, e.name) {
            Some(prev) => Err(invalid_at(76, 0, both_text(e.name, prev, who))),
            None => {
                let model = ModelView {
                    entities: s.program.model.entities.push(e),
                    ..s.program.model
                };
                let s = MergeView {
                    owners: assoc_insert(s.owners, e.name, who),
                    ..with_model(s, model)
                };
                entities_in(s, list.drop_first(), who)
            },
        }
    }
}

/// The view of a step's outcome: the state, or the fault.
pub open spec fn outcome(s: MergeView, fault: Option<Fault>) -> Result<MergeView, FaultView> {
    match fault {
        None => Ok(s),
        Some(f) => Err(f@),
    }
}

fn add_entities(state: &mut Merge, list: Vec<EntityDecl>, who: &str) -> (r: Option<Fault>)
    ensures
        outcome(final(state)@, r) == entities_in(old(state)@, entity_views(list@), who@),
{
    let ghost goal = entities_in(state@, entity_views(list@), who@);
    let mut rest: Vec<EntityDecl> = list;
    while rest.len() > 0
        invariant
            goal == entities_in(old(state)@, entity_views(list@), who@),
            goal == entities_in(state@, entity_views(rest@), who@),
        decreases rest.len(),
    {
        let ghost before = state@;
        let ghost views = entity_views(rest@);
        let e: EntityDecl = rest.remove(0);
        proof {
            assert(views[0] == e@);
            assert(entity_views(rest@) =~= views.drop_first());
        }
        if let Some(prev) = state.owners.get(&e.name) {
            return Some(reject_at(76, 0, both_message(&e.name, prev, who)));
        }
        state.owners.insert(e.name.clone(), who.to_owned());
        let ghost ev = e@;
        state.program.model.entities.push(e);
        proof {
            assert(state@.program.model.entities =~= before.program.model.entities.push(ev));
        }
    }
    proof {
        assert(entity_views(rest@).len() == 0);
    }
    None
}

/// The state after the pools of a module.
pub open spec fn pools_in(s: MergeView, list: Seq<PoolView>, who: Seq<char>) -> Result<
    MergeView,
    FaultView,
>
    decreases list.len(),
{
    if list.len() == 0 {
        Ok(s)
    } else {
        let p = list[0];
        match assoc_get(s.owners, p.name) {
            Some(_) => Err(invalid_at(76, 0, twice_text("pool `"@, p.name))),
            None => {
                let model = ModelView {
                    pools: s.program.model.pools.push(p),
                    ..s.program.model
                };
                let s = MergeView {
                    owners: assoc_insert(s.owners, p.name, who),
                    ..with_model(s, model)
                };
                pools_in(s, list.drop_first(), who)
            },
        }
    }
}

fn add_pools(state: &mut Merge, list: Vec<PoolDecl>, who: &str) -> (r: Option<Fault>)
    ensures
        outcome(final(state)@, r) == pools_in(old(state)@, pool_views(list@), who@),
{
    let ghost goal = pools_in(state@, pool_views(list@), who@);
    let mut rest: Vec<PoolDecl> = list;
    while rest.len() > 0
        invariant
            goal == pools_in(old(state)@, pool_views(list@), who@),
            goal == pools_in(state@, pool_views(rest@), who@),
        decreases rest.len(),
    {
        let ghost before = state@;
        let ghost views = pool_views(rest@);
        let p: PoolDecl = rest.remove(0);
        proof {
            assert(views[0] == p@);
            assert(pool_views(rest@) =~= views.drop_first());
        }
        if state.owners.has(&p.name) {
            return Some(reject_at(76, 0, twice_message("pool `", &p.name)));
        }
        state.owners.insert(p.name.clone(), who.to_owned());
        let ghost pv = p@;
        state.program.model.pools.push(p);
        proof {
            assert(state@.program.model.pools =~= before.program.model.pools.push(pv));
        }
    }
    proof {
        assert(pool_views(rest@).len() == 0);
    }
    None
}

/// The shapes with those of a module; a later shape of the same name wins.
pub open spec fn shapes_in(
    shapes: Seq<(Seq<char>, Seq<PartView>)>,
    list: Seq<(Seq<char>, Seq<PartView>)>,
) -> Seq<(Seq<char>, Seq<PartView>)>
    decreases list.len(),
{
    if list.len() == 0 {
        shapes
    } else {
        shapes_in(assoc_insert(shapes, list[0].0, list[0].1), list.drop_first())
    }
}

fn add_shapes(shapes: &mut ViewMap<ShapeDecl>, list: ViewMap<ShapeDecl>)
    ensures
        final(shapes)@ == shapes_in(old(shapes)@, list@),
{
    let ghost goal = shapes_in(shapes@, list@);
    let mut rest: ViewMap<ShapeDecl> = list;
    while rest.entries.len() > 0
        invariant
            goal == shapes_in(shapes@, rest@),
        decreases rest.entries.len(),
    {
        let ghost views = rest@;
        let (name, shape): (String, ShapeDecl) = rest.entries.remove(0);
        proof {
            assert(views[0] == (name@, shape@));
            assert(rest@ =~= views.drop_first());
        }
        shapes.insert(name, shape);
    }
    proof {
        assert(rest@.len() == 0);
    }
}

/// Whether a channel is among those given.
pub open spec fn has_channel(list: Seq<(Seq<char>, u64)>, name: Seq<char>) -> bool {
    exists|i: int| 0 <= i < list.len() && (#[trigger] list[i]).0 == name
}

fn find_channel(list: &Vec<ChanDecl>, name: &str) -> (r: bool)
    ensures
        r == has_channel(chan_views(list@), name@),
{
    let mut i: usize = 0;
    while i < list.len()
        invariant
            i <= list.len(),
            forall|k: int| 0 <= k < i ==> (#[trigger] chan_views(list@)[k]).0 != name@,
        decreases list.len() - i,
    {
        proof {
            assert(chan_views(list@)[i as int].0 == list@[i as int].name@);
        }
        if same(&list[i].name, name) {
            return true;
        }
        i = i + 1;
    }
    false
}

/// The state after the channels of a module.
pub open spec fn channels_in(s: MergeView, list: Seq<(Seq<char>, u64)>) -> Result<
    MergeView,
    FaultView,
>
    decreases list.len(),
{
    if list.len() == 0 {
        Ok(s)
    } else if has_channel(s.program.model.channels, list[0].0) {
        Err(invalid_at(76, 0, twice_text("channel `"@, list[0].0)))
    } else {
        let model = ModelView {
            channels: s.program.model.channels.push(list[0]),
            ..s.program.model
        };
        channels_in(with_model(s, model), list.drop_first())
    }
}

fn add_channels(state: &mut Merge, list: Vec<ChanDecl>) -> (r: Option<Fault>)
    ensures
        outcome(final(state)@, r) == channels_in(old(state)@, chan_views(list@)),
{
    let ghost goal = channels_in(state@, chan_views(list@));
    let mut rest: Vec<ChanDecl> = list;
    while rest.len() > 0
        invariant
            goal == channels_in(old(state)@, chan_views(list@)),
            goal == channels_in(state@, chan_views(rest@)),
        decreases rest.len(),
    {
        let ghost before = state@;
        let ghost views = chan_views(rest@);
        let c: ChanDecl = rest.remove(0);
        proof {
            assert(views[0] == (c.name@, c.value));
            assert(chan_views(rest@) =~= views.drop_first());
        }
        if find_channel(&state.program.model.channels, &c.name) {
            return Some(reject_at(76, 0, twice_message("channel `", &c.name)));
        }
        state.program.model.channels.push(c);
        proof {
            assert(state@.program.model.channels =~= before.program.model.channels.push(views[0]));
        }
    }
    proof {
        assert(chan_views(rest@).len() == 0);
    }
    None
}

/// Whether a field is among those given.
pub open spec fn has_field(list: Seq<FieldView>, name: Seq<char>) -> bool {
    exists|i: int| 0 <= i < list.len() && (#[trigger] list[i]).name == name
}

fn find_field(list: &Vec<FieldDecl>, name: &str) -> (r: bool)
    ensures
        r == has_field(field_views(list@), name@),
{
    let mut i: usize = 0;
    while i < list.len()
        invariant
            i <= list.len(),
            forall|k: int| 0 <= k < i ==> (#[trigger] field_views(list@)[k]).name != name@,
        decreases list.len() - i,
    {
        proof {
            assert(field_views(list@)[i as int].name == list@[i as int].name@);
        }
        if same(&list[i].name, name) {
            return true;
        }
        i = i + 1;
    }
    false
}

/// The state after the fields of a module.
pub open spec fn fields_in(s: MergeView, list: Seq<FieldView>) -> Result<MergeView, FaultView>
    decreases list.len(),
{
    if list.len() == 0 {
        Ok(s)
    } else if has_field(s.program.model.fields, list[0].name) {
        Err(invalid_at(76, 0, twice_text("field `"@, list[0].name)))
    } else {
        let model = ModelView {
            fields: s.program.model.fields.push(list[0]),
            ..s.program.model
        };
        fields_in(with_model(s, model), list.drop_first())
    }
}

fn add_fields(state: &mut Merge, list: Vec<FieldDecl>) -> (r: Option<Fault>)
    ensures
        outcome(final(state)@, r) == fields_in(old(state)@, field_views(list@)),
{
    let ghost goal = fields_in(state@, field_views(list@));
    let mut rest: Vec<FieldDecl> = list;
    while rest.len() > 0
        invariant
            goal == fields_in(old(state)@, field_views(list@)),
            goal == fields_in(state@, field_views(rest@)),
        decreases rest.len(),
    {
        let ghost before = state@;
        let ghost views = field_views(rest@);
        let f: FieldDecl = rest.remove(0);
        proof {
            assert(views[0] == f@);
            assert(field_views(rest@) =~= views.drop_first());
        }
        if find_field(&state.program.model.fields, &f.name) {
            return Some(reject_at(76, 0, twice_message("field `", &f.name)));
        }
        state.program.model.fields.push(f);
        proof {
            assert(state@.program.model.fields =~= before.program.model.fields.push(views[0]));
        }
    }
    proof {
        assert(field_views(rest@).len() == 0);
    }
    None
}

/// Parameters with one more, unless its name is taken.
pub open spec fn or_insert(params: Seq<(Seq<char>, u64)>, key: Seq<char>, value: u64) -> Seq<
    (Seq<char>, u64),
> {
    if assoc_get(params, key) is Some {
        params
    } else {
        assoc_insert(params, key, value)
    }
}

/// The world with a parameter under one name, kept under `canon`.
pub open spec fn param_as(
    model: ModelView,
    key: Seq<char>,
    value: u64,
    canon: Seq<char>,
) -> ModelView {
    ModelView {
        params: or_insert(model.params, key, value),
        param_alias: assoc_insert(model.param_alias, key, canon),
        ..model
    }
}

fn add_param_as(model: &mut WorldModel, key: String, value: u64, canon: &str)
    ensures
        final(model)@ == param_as(old(model)@, key@, value, canon@),
{
    if !model.params.has(&key) {
        model.params.insert(key.clone(), value);
    }
    model.param_alias.insert(key, canon.to_owned());
}

/// The world with a parameter under every alias of its module.
pub open spec fn param_aliases(
    model: ModelView,
    name: Seq<char>,
    value: u64,
    canon: Seq<char>,
    aliases: Seq<Seq<char>>,
) -> ModelView
    decreases aliases.len(),
{
    if aliases.len() == 0 {
        model
    } else {
        param_aliases(
            param_as(model, scoped(aliases[0], name), value, canon),
            name,
            value,
            canon,
            aliases.drop_first(),
        )
    }
}

fn add_param_aliases(
    model: &mut WorldModel,
    name: &str,
    value: u64,
    canon: &str,
    aliases: &Vec<String>,
)
    ensures
        final(model)@ == param_aliases(old(model)@, name@, value, canon@, text_views(aliases@)),
{
    let ghost goal = param_aliases(model@, name@, value, canon@, text_views(aliases@));
    let ghost views = text_views(aliases@);
    let mut i: usize = 0;
    proof {
        assert(views.skip(0) =~= views);
    }
    while i < aliases.len()
        invariant
            i <= aliases.len(),
            views == text_views(aliases@),
            goal == param_aliases(model@, name@, value, canon@, views.skip(i as int)),
        decreases aliases.len() - i,
    {
        proof {
            assert(views.skip(i as int)[0] == aliases@[i as int]@);
            assert(views.skip(i as int).drop_first() =~= views.skip(i + 1));
        }
        add_param_as(model, scope_name(&aliases[i], name), value, canon);
        i = i + 1;
    }
}

/// The world after the parameters of a module.
pub open spec fn params_in(
    model: ModelView,
    list: Seq<(Seq<char>, u64)>,
    ns: Seq<char>,
    aliases: Seq<Seq<char>>,
) -> ModelView
    decreases list.len(),
{
    if list.len() == 0 {
        model
    } else {
        let (name, value) = list[0];
        let canon = scoped(ns, name);
        let model = param_as(
            param_aliases(model, name, value, canon, aliases),
            canon,
            value,
            canon,
        );
        params_in(model, list.drop_first(), ns, aliases)
    }
}

fn add_params(model: &mut WorldModel, list: &NameMap<u64>, ns: &str, aliases: &Vec<String>)
    ensures
        final(model)@ == params_in(old(model)@, list@, ns@, text_views(aliases@)),
{
    let ghost goal = params_in(model@, list@, ns@, text_views(aliases@));
    let mut i: usize = 0;
    proof {
        assert(list@.skip(0) =~= list@);
    }
    while i < list.entries.len()
        invariant
            i <= list.entries.len(),
            goal == params_in(model@, list@.skip(i as int), ns@, text_views(aliases@)),
        decreases list.entries.len() - i,
    {
        let name: &String = &list.entries[i].0;
        let value: u64 = list.entries[i].1;
        proof {
            assert(list@.skip(i as int)[0] == (name@, value));
            assert(list@.skip(i as int).drop_first() =~= list@.skip(i + 1));
        }
        let canon: String = scope_name(ns, name);
        add_param_aliases(model, name, value, &canon, aliases);
        add_param_as(model, canon.clone(), value, &canon);
        i = i + 1;
    }
}

/// The units with one under every alias of its module.
pub open spec fn unit_aliases(
    units: Seq<(Seq<char>, Dim)>,
    name: Seq<char>,
    unit: Dim,
    aliases: Seq<Seq<char>>,
) -> Seq<(Seq<char>, Dim)>
    decreases aliases.len(),
{
    if aliases.len() == 0 {
        units
    } else {
        unit_aliases(
            assoc_insert(units, scoped(aliases[0], name), unit),
            name,
            unit,
            aliases.drop_first(),
        )
    }
}

/// The units after those of a module.
pub open spec fn units_in(
    units: Seq<(Seq<char>, Dim)>,
    list: Seq<(Seq<char>, Dim)>,
    ns: Seq<char>,
    aliases: Seq<Seq<char>>,
) -> Seq<(Seq<char>, Dim)>
    decreases list.len(),
{
    if list.len() == 0 {
        units
    } else {
        let (name, unit) = list[0];
        units_in(
            assoc_insert(unit_aliases(units, name, unit, aliases), scoped(ns, name), unit),
            list.drop_first(),
            ns,
            aliases,
        )
    }
}

fn add_unit_aliases(units: &mut ViewMap<Dim>, name: &str, unit: Dim, aliases: &Vec<String>)
    ensures
        final(units)@ == unit_aliases(old(units)@, name@, unit@, text_views(aliases@)),
{
    let ghost goal = unit_aliases(units@, name@, unit@, text_views(aliases@));
    let ghost views = text_views(aliases@);
    let mut i: usize = 0;
    proof {
        assert(views.skip(0) =~= views);
    }
    while i < aliases.len()
        invariant
            i <= aliases.len(),
            views == text_views(aliases@),
            goal == unit_aliases(units@, name@, unit@, views.skip(i as int)),
        decreases aliases.len() - i,
    {
        proof {
            assert(views.skip(i as int)[0] == aliases@[i as int]@);
            assert(views.skip(i as int).drop_first() =~= views.skip(i + 1));
        }
        units.insert(scope_name(&aliases[i], name), unit);
        i = i + 1;
    }
}

fn add_units(units: &mut ViewMap<Dim>, list: &ViewMap<Dim>, ns: &str, aliases: &Vec<String>)
    ensures
        final(units)@ == units_in(old(units)@, list@, ns@, text_views(aliases@)),
{
    let ghost goal = units_in(units@, list@, ns@, text_views(aliases@));
    let mut i: usize = 0;
    proof {
        assert(list@.skip(0) =~= list@);
    }
    while i < list.entries.len()
        invariant
            i <= list.entries.len(),
            goal == units_in(units@, list@.skip(i as int), ns@, text_views(aliases@)),
        decreases list.entries.len() - i,
    {
        let name: &String = &list.entries[i].0;
        let unit: Dim = list.entries[i].1;
        proof {
            assert(list@.skip(i as int)[0] == (name@, unit@));
            assert(list@.skip(i as int).drop_first() =~= list@.skip(i + 1));
        }
        add_unit_aliases(units, name, unit, aliases);
        units.insert(scope_name(ns, name), unit);
        i = i + 1;
    }
}

/// The index of the first function of a name, or the length without one.
pub open spec fn func_place(funcs: Seq<FuncView>, name: Seq<char>) -> nat
    decreases funcs.len(),
{
    if funcs.len() == 0 || funcs[0].name == name {
        0
    } else {
        1 + func_place(funcs.drop_first(), name)
    }
}

fn find_func(funcs: &Vec<FuncDecl>, name: &str) -> (r: usize)
    ensures
        r == func_place(func_views(funcs@), name@),
        r <= funcs@.len(),
{
    let ghost views = func_views(funcs@);
    let mut i: usize = 0;
    proof {
        assert(views.skip(0) =~= views);
    }
    while i < funcs.len()
        invariant
            i <= funcs.len(),
            views == func_views(funcs@),
            func_place(views, name@) == i + func_place(views.skip(i as int), name@),
        decreases funcs.len() - i,
    {
        proof {
            assert(views.skip(i as int)[0].name == funcs@[i as int].name@);
            assert(views.skip(i as int).drop_first() =~= views.skip(i + 1));
        }
        if same(&funcs[i].name, name) {
            return i;
        }
        i = i + 1;
    }
    i
}

/// The functions with a copy of one for every alias of its module.
pub open spec fn func_aliases(
    funcs: Seq<FuncView>,
    f: FuncView,
    aliases: Seq<Seq<char>>,
) -> Seq<FuncView>
    decreases aliases.len(),
{
    if aliases.len() == 0 {
        funcs
    } else {
        let copy = FuncView { name: scoped(aliases[0], f.name), namespace: aliases[0], ..f };
        func_aliases(funcs.push(copy), f, aliases.drop_first())
    }
}

fn add_func_aliases(funcs: &mut Vec<FuncDecl>, f: &FuncDecl, aliases: &Vec<String>)
    ensures
        func_views(final(funcs)@) == func_aliases(
            func_views(old(funcs)@),
            f@,
            text_views(aliases@),
        ),
{
    let ghost goal = func_aliases(func_views(funcs@), f@, text_views(aliases@));
    let ghost views = text_views(aliases@);
    let mut i: usize = 0;
    proof {
        assert(views.skip(0) =~= views);
    }
    while i < aliases.len()
        invariant
            i <= aliases.len(),
            views == text_views(aliases@),
            goal == func_aliases(func_views(funcs@), f@, views.skip(i as int)),
        decreases aliases.len() - i,
    {
        let ghost before = func_views(funcs@);
        proof {
            assert(views.skip(i as int)[0] == aliases@[i as int]@);
            assert(views.skip(i as int).drop_first() =~= views.skip(i + 1));
        }
        let copy: FuncDecl = f.renamed(scope_name(&aliases[i], &f.name), aliases[i].clone());
        let ghost cv = copy@;
        funcs.push(copy);
        proof {
            assert(func_views(funcs@) =~= before.push(cv));
        }
        i = i + 1;
    }
}

/// The functions after those of a module: one per alias, and one under the module's
/// own namespace where no alias gave that.
pub open spec fn funcs_in(
    funcs: Seq<FuncView>,
    list: Seq<FuncView>,
    ns: Seq<char>,
    aliases: Seq<Seq<char>>,
) -> Seq<FuncView>
    decreases list.len(),
{
    if list.len() == 0 {
        funcs
    } else {
        let f = list[0];
        let copies = func_aliases(funcs, f, aliases);
        let canon = scoped(ns, f.name);
        let all = if func_place(copies, canon) < copies.len() {
            copies
        } else {
            copies.push(FuncView { name: canon, namespace: ns, ..f })
        };
        funcs_in(all, list.drop_first(), ns, aliases)
    }
}

fn add_funcs(funcs: &mut Vec<FuncDecl>, list: &Vec<FuncDecl>, ns: &str, aliases: &Vec<String>)
    ensures
        func_views(final(funcs)@) == funcs_in(
            func_views(old(funcs)@),
            func_views(list@),
            ns@,
            text_views(aliases@),
        ),
{
    let ghost goal = funcs_in(func_views(funcs@), func_views(list@), ns@, text_views(aliases@));
    let ghost views = func_views(list@);
    let mut i: usize = 0;
    proof {
        assert(views.skip(0) =~= views);
    }
    while i < list.len()
        invariant
            i <= list.len(),
            views == func_views(list@),
            goal == funcs_in(
                func_views(funcs@),
                views.skip(i as int),
                ns@,
                text_views(aliases@),
            ),
        decreases list.len() - i,
    {
        proof {
            assert(views.skip(i as int)[0] == list@[i as int]@);
            assert(views.skip(i as int).drop_first() =~= views.skip(i + 1));
        }
        add_func_aliases(funcs, &list[i], aliases);
        let canon: String = scope_name(ns, &list[i].name);
        if find_func(funcs, &canon) >= funcs.len() {
            let ghost before = func_views(funcs@);
            let copy: FuncDecl = list[i].renamed(canon, ns.to_owned());
            let ghost cv = copy@;
            funcs.push(copy);
            proof {
                assert(func_views(funcs@) =~= before.push(cv));
            }
        }
        i = i + 1;
    }
}

/// The systems after those of a module, which take its namespace.
pub open spec fn systems_in(
    systems: Seq<SystemDeclView>,
    list: Seq<SystemDeclView>,
    ns: Seq<char>,
) -> Seq<SystemDeclView>
    decreases list.len(),
{
    if list.len() == 0 {
        systems
    } else {
        let sys = SystemDeclView { namespace: ns, ..list[0] };
        systems_in(systems.push(sys), list.drop_first(), ns)
    }
}

fn add_systems(systems: &mut Vec<SystemDecl>, list: Vec<SystemDecl>, ns: &str)
    ensures
        system_decl_views(final(systems)@) == systems_in(
            system_decl_views(old(systems)@),
            system_decl_views(list@),
            ns@,
        ),
{
    let ghost goal = systems_in(system_decl_views(systems@), system_decl_views(list@), ns@);
    let mut rest: Vec<SystemDecl> = list;
    while rest.len() > 0
        invariant
            goal == systems_in(system_decl_views(systems@), system_decl_views(rest@), ns@),
        decreases rest.len(),
    {
        let ghost before = system_decl_views(systems@);
        let ghost views = system_decl_views(rest@);
        let mut sys: SystemDecl = rest.remove(0);
        proof {
            assert(views[0] == sys@);
            assert(system_decl_views(rest@) =~= views.drop_first());
        }
        sys.namespace = ns.to_owned();
        let ghost sv = sys@;
        systems.push(sys);
        proof {
            assert(system_decl_views(systems@) =~= before.push(sv));
        }
    }
    proof {
        assert(system_decl_views(rest@).len() == 0);
    }
}

/// What a module adds that cannot clash.
pub open spec fn rest_in(s: MergeView, m: ModuleView) -> MergeView {
    let model = params_in(s.program.model, m.parsed.model.params, m.ns, m.aliases);
    let model = ModelView {
        param_units: units_in(
            model.param_units,
            m.parsed.model.param_units,
            m.ns,
            m.aliases,
        ),
        ..model
    };
    MergeView {
        program: ProgramView {
            model,
            systems: systems_in(s.program.systems, m.parsed.systems, m.ns),
            funcs: funcs_in(s.program.funcs, m.parsed.funcs, m.ns, m.aliases),
        },
        ..s
    }
}

/// The state after one module. The gravity is that of the first module, the title
/// the first that is given.
pub open spec fn module_in(s: MergeView, m: ModuleView, first: bool) -> Result<
    MergeView,
    FaultView,
> {
    let model = ModelView {
        gravity: if first {
            m.parsed.model.gravity
        } else {
            s.program.model.gravity
        },
        title: if s.program.model.title is None {
            m.parsed.model.title
        } else {
            s.program.model.title
        },
        ..s.program.model
    };
    match entities_in(with_model(s, model), m.parsed.model.entities, m.path) {
        Err(f) => Err(f),
        Ok(s) => match pools_in(s, m.parsed.model.pools, m.path) {
            Err(f) => Err(f),
            Ok(s) => {
                let model = ModelView {
                    shapes: shapes_in(s.program.model.shapes, m.parsed.model.shapes),
                    ..s.program.model
                };
                match channels_in(with_model(s, model), m.parsed.model.channels) {
                    Err(f) => Err(f),
                    Ok(s) => match fields_in(s, m.parsed.model.fields) {
                        Err(f) => Err(f),
                        Ok(s) => Ok(rest_in(s, m)),
                    },
                }
            },
        },
    }
}

fn add_module(state: &mut Merge, m: ModuleInfo, first: bool) -> (r: Option<Fault>)
    ensures
        outcome(final(state)@, r) == module_in(old(state)@, m@, first),
{
    let ghost mv = m@;
    let ModuleInfo { ns, aliases, path, parsed } = m;
    let ParsedProgram { model, systems, funcs } = parsed;
    if first {
        state.program.model.gravity = model.gravity;
    }
    if state.program.model.title.is_none() {
        state.program.model.title = model.title;
    }
    match add_entities(state, model.entities, &path) {
        Some(f) => return Some(f),
        None => {},
    }
    match add_pools(state, model.pools, &path) {
        Some(f) => return Some(f),
        None => {},
    }
    add_shapes(&mut state.program.model.shapes, model.shapes);
    match add_channels(state, model.channels) {
        Some(f) => return Some(f),
        None => {},
    }
    match add_fields(state, model.fields) {
        Some(f) => return Some(f),
        None => {},
    }
    add_params(&mut state.program.model, &model.params, &ns, &aliases);
    add_units(&mut state.program.model.param_units, &model.param_units, &ns, &aliases);
    add_funcs(&mut state.program.funcs, &funcs, &ns, &aliases);
    add_systems(&mut state.program.systems, systems, &ns);
    None
}

/// The state after a list of modules.
pub open spec fn modules_in(s: MergeView, list: Seq<ModuleView>, first: bool) -> Result<
    MergeView,
    FaultView,
>
    decreases list.len(),
{
    if list.len() == 0 {
        Ok(s)
    } else {
        match module_in(s, list[0], first) {
            Err(f) => Err(f),
            Ok(s) => modules_in(s, list.drop_first(), false),
        }
    }
}

/// The program with the bare names that `from` imports bind: a copy of the
/// function, and the parameter under the name that it is kept under.
pub open spec fn bare_in(p: ProgramView, list: Seq<(Seq<char>, Seq<char>)>) -> ProgramView
    decreases list.len(),
{
    if list.len() == 0 {
        p
    } else {
        let (bare, full) = list[0];
        let at = func_place(p.funcs, full);
        let funcs = if func_place(p.funcs, bare) >= p.funcs.len() && at < p.funcs.len() {
            p.funcs.push(FuncView { name: bare, ..p.funcs[at as int] })
        } else {
            p.funcs
        };
        let model = match (assoc_get(p.model.param_alias, full), assoc_get(p.model.params, full)) {
            (Some(canon), Some(value)) => ModelView {
                params: assoc_insert(p.model.params, bare, value),
                param_alias: assoc_insert(p.model.param_alias, bare, canon),
                ..p.model
            },
            _ => p.model,
        };
        bare_in(ProgramView { model, funcs, ..p }, list.drop_first())
    }
}

/// The values of a list of bare and qualified names.
pub open spec fn pair_views(s: Seq<(String, String)>) -> Seq<(Seq<char>, Seq<char>)> {
    s.map_values(|p: (String, String)| (p.0@, p.1@))
}

fn bind_func(funcs: &mut Vec<FuncDecl>, bare: &str, full: &str)
    ensures
        func_views(final(funcs)@) == ({
            let fs = func_views(old(funcs)@);
            let at = func_place(fs, full@);
            if func_place(fs, bare@) >= fs.len() && at < fs.len() {
                fs.push(FuncView { name: bare@, ..fs[at as int] })
            } else {
                fs
            }
        }),
{
    let at: usize = find_func(funcs, full);
    if find_func(funcs, bare) >= funcs.len() && at < funcs.len() {
        let ghost before = func_views(funcs@);
        let copy: FuncDecl = funcs[at].renamed(bare.to_owned(), funcs[at].namespace.clone());
        let ghost cv = copy@;
        proof {
            assert(before[at as int] == funcs@[at as int]@);
        }
        funcs.push(copy);
        proof {
            assert(func_views(funcs@) =~= before.push(cv));
        }
    }
}

fn bind_bare(p: &mut ParsedProgram, list: &Vec<(String, String)>)
    ensures
        final(p)@ == bare_in(old(p)@, pair_views(list@)),
{
    let ghost goal = bare_in(p@, pair_views(list@));
    let ghost views = pair_views(list@);
    let mut i: usize = 0;
    proof {
        assert(views.skip(0) =~= views);
    }
    while i < list.len()
        invariant
            i <= list.len(),
            views == pair_views(list@),
            goal == bare_in(p@, views.skip(i as int)),
        decreases list.len() - i,
    {
        let bare: &String = &list[i].0;
        let full: &String = &list[i].1;
        proof {
            assert(views.skip(i as int)[0] == (bare@, full@));
            assert(views.skip(i as int).drop_first() =~= views.skip(i + 1));
        }
        bind_func(&mut p.funcs, bare, full);
        let canon: Option<String> = match p.model.param_alias.get(full) {
            Some(c) => Some(c.clone()),
            None => None,
        };
        let value: Option<u64> = match p.model.params.get(full) {
            Some(v) => Some(*v),
            None => None,
        };
        match (canon, value) {
            (Some(c), Some(v)) => {
                p.model.params.insert(bare.clone(), v);
                p.model.param_alias.insert(bare.clone(), c);
            },
            _ => {},
        }
        i = i + 1;
    }
}

/// The first function from an index on whose name an earlier one has.
pub open spec fn repeated_from(funcs: Seq<FuncView>, i: nat) -> Option<Seq<char>>
    decreases funcs.len() - i,
{
    if i >= funcs.len() {
        None
    } else if func_place(funcs, funcs[i as int].name) < i {
        Some(funcs[i as int].name)
    } else {
        repeated_from(funcs, i + 1)
    }
}

fn find_repeated(funcs: &Vec<FuncDecl>) -> (r: Option<String>)
    ensures
        repeated_from(func_views(funcs@), 0) == (match r {
            Some(n) => Some(n@),
            None => None,
        }),
{
    let mut i: usize = 0;
    while i < funcs.len()
        invariant
            i <= funcs.len(),
            repeated_from(func_views(funcs@), 0) == repeated_from(func_views(funcs@), i as nat),
        decreases funcs.len() - i,
    {
        proof {
            assert(func_views(funcs@)[i as int].name == funcs@[i as int].name@);
        }
        if find_func(funcs, &funcs[i].name) < i {
            return Some(funcs[i].name.clone());
        }
        i = i + 1;
    }
    None
}

/// The program of several modules.
pub open spec fn merged(modules: Seq<ModuleView>, aliases: Seq<(Seq<char>, Seq<char>)>) -> Result<
    ProgramView,
    FaultView,
> {
    let start = MergeView {
        program: ProgramView {
            model: crate::decl::bare_world(),
            systems: Seq::empty(),
            funcs: Seq::empty(),
        },
        owners: Seq::empty(),
    };
    match modules_in(start, modules, true) {
        Err(f) => Err(f),
        Ok(s) => {
            let p = bare_in(s.program, aliases);
            match repeated_from(p.funcs, 0) {
                Some(name) => Err(invalid_at(76, 0, twice_text("function `"@, name))),
                None => Ok(p),
            }
        },
    }
}

/// Merges modules into one program. Entities, pools, channels, fields and systems are
/// world content: a name that two of them have is an error. Functions and parameters
/// are kept under their module's names, and `aliases` binds some bare as well.
pub fn merge_modules(modules: Vec<ModuleInfo>, aliases: &Vec<(String, String)>) -> (r: Result<
    ParsedProgram,
    Fault,
>)
    ensures
        program_result(r) == merged(module_views(modules@), pair_views(aliases@)),
{
    let mut state = Merge {
        program: ParsedProgram {
            model: WorldModel::new(),
            systems: Vec::new(),
            funcs: Vec::new(),
        },
        owners: ViewMap::new(),
    };
    proof {
        assert(state@.program.systems =~= Seq::<SystemDeclView>::empty());
        assert(state@.program.funcs =~= Seq::<FuncView>::empty());
    }
    let ghost goal = modules_in(state@, module_views(modules@), true);
    let mut rest: Vec<ModuleInfo> = modules;
    let mut first: bool = true;
    while rest.len() > 0
        invariant
            goal == modules_in(state@, module_views(rest@), first),
            match goal {
                Err(f) => merged(module_views(modules@), pair_views(aliases@)) == Err::<
                    ProgramView,
                    FaultView,
                >(f),
                _ => true,
            },
        decreases rest.len(),
    {
        let ghost views = module_views(rest@);
        let m: ModuleInfo = rest.remove(0);
        proof {
            assert(views[0] == m@);
            assert(module_views(rest@) =~= views.drop_first());
        }
        match add_module(&mut state, m, first) {
            Some(f) => return Err(f),
            None => {},
        }
        first = false;
    }
    proof {
        assert(module_views(rest@).len() == 0);
    }
    bind_bare(&mut state.program, aliases);
    match find_repeated(&state.program.funcs) {
        Some(name) => Err(reject_at(76, 0, twice_message("function `", &name))),
        None => Ok(state.program),
    }
}

/// The sources of a program: the root, the imported modules, and what `from` imports
/// bind. A program can be built from them without its files.
pub struct ProgramSources {
    pub root: String,
    /// Every namespace that the root is bound to: the empty one, and those of the modules
    /// that import it back.
    pub root_aliases: Vec<String>,
    /// Of each module: its namespace, the path to show, its source, and its aliases.
    pub modules: Vec<(String, String, String, Vec<String>)>,
    /// Bare names and the qualified names that they stand for.
    pub aliases: Vec<(String, String)>,
}

/// The mathematical value of a [`ProgramSources`].
pub struct SourcesView {
    pub root: Seq<char>,
    pub root_aliases: Seq<Seq<char>>,
    pub modules: Seq<(Seq<char>, Seq<char>, Seq<char>, Seq<Seq<char>>)>,
    pub aliases: Seq<(Seq<char>, Seq<char>)>,
}

/// The values of a list of stored modules.
pub open spec fn stored_views(s: Seq<(String, String, String, Vec<String>)>) -> Seq<
    (Seq<char>, Seq<char>, Seq<char>, Seq<Seq<char>>),
> {
    s.map_values(|m: (String, String, String, Vec<String>)| (m.0@, m.1@, m.2@, text_views(m.3@)))
}

impl View for ProgramSources {
    type V = SourcesView;

    open spec fn view(&self) -> SourcesView {
        SourcesView {
            root: self.root@,
            root_aliases: text_views(self.root_aliases@),
            modules: stored_views(self.modules@),
            aliases: pair_views(self.aliases@),
        }
    }
}

/// The modules of stored sources, parsed; the first source that does not parse
/// decides.
pub open spec fn stored_modules(
    n: NumbersView,
    done: Seq<ModuleView>,
    list: Seq<(Seq<char>, Seq<char>, Seq<char>, Seq<Seq<char>>)>,
) -> Result<Seq<ModuleView>, FaultView>
    decreases list.len(),
{
    if list.len() == 0 {
        Ok(done)
    } else {
        let (ns, path, source, aliases) = list[0];
        match program_of(n, source) {
            Err(f) => Err(f),
            Ok(parsed) => stored_modules(
                n,
                done.push(ModuleView { ns, aliases, path, parsed }),
                list.drop_first(),
            ),
        }
    }
}

/// The program of stored sources.
pub open spec fn sources_merged(n: NumbersView, src: SourcesView) -> Result<
    ProgramView,
    FaultView,
> {
    match program_of(n, src.root) {
        Err(f) => Err(f),
        Ok(parsed) => {
            let root = ModuleView {
                ns: ""@,
                aliases: src.root_aliases,
                path: "<root>"@,
                parsed,
            };
            match stored_modules(n, seq![root], src.modules) {
                Err(f) => Err(f),
                Ok(modules) => merged(modules, src.aliases),
            }
        },
    }
}

/// Parses stored sources and merges them.
pub fn merge_sources(src: &ProgramSources, numbers: &Numbers) -> (r: Result<ParsedProgram, Fault>)
    ensures
        program_result(r) == sources_merged(numbers@, src@),
{
    let root: ParsedProgram = match parse(&src.root, numbers) {
        Ok(p) => p,
        Err(f) => return Err(f),
    };
    let root_module = ModuleInfo {
        ns: "".to_owned(),
        aliases: copy_texts(&src.root_aliases),
        path: "<root>".to_owned(),
        parsed: root,
    };
    let ghost rv = root_module@;
    let mut modules: Vec<ModuleInfo> = Vec::new();
    modules.push(root_module);
    let ghost views = src@.modules;
    proof {
        assert(module_views(modules@) =~= seq![rv]);
        assert(views.skip(0) =~= views);
    }
    let ghost goal = stored_modules(numbers@, seq![rv], views);
    let mut i: usize = 0;
    while i < src.modules.len()
        invariant
            i <= src.modules.len(),
            views == stored_views(src.modules@),
            goal == stored_modules(numbers@, module_views(modules@), views.skip(i as int)),
            match goal {
                Err(f) => sources_merged(numbers@, src@) == Err::<ProgramView, FaultView>(f),
                _ => true,
            },
        decreases src.modules.len() - i,
    {
        let ghost before = module_views(modules@);
        let stored: &(String, String, String, Vec<String>) = &src.modules[i];
        proof {
            assert(views.skip(i as int)[0] == (
                stored.0@,
                stored.1@,
                stored.2@,
                text_views(stored.3@),
            ));
            assert(views.skip(i as int).drop_first() =~= views.skip(i + 1));
        }
        let parsed: ParsedProgram = match parse(&stored.2, numbers) {
            Ok(p) => p,
            Err(f) => return Err(f),
        };
        let m = ModuleInfo {
            ns: stored.0.clone(),
            aliases: copy_texts(&stored.3),
            path: stored.1.clone(),
            parsed,
        };
        let ghost mv = m@;
        modules.push(m);
        proof {
            assert(module_views(modules@) =~= before.push(mv));
        }
        i = i + 1;
    }
    merge_modules(modules, &src.aliases)
}

/// Whether no two entities or pools share a name, nor two channels, nor two fields.
pub open spec fn content_distinct(m: ModelView) -> bool {
    &&& forall|i: int, j: int|
        0 <= i < j < m.entities.len() ==> (#[trigger] m.entities[i]).name != (
        #[trigger] m.entities[j]).name
    &&& forall|i: int, j: int|
        0 <= i < j < m.pools.len() ==> (#[trigger] m.pools[i]).name != (
        #[trigger] m.pools[j]).name
    &&& forall|i: int, j: int|
        0 <= i < m.entities.len() && 0 <= j < m.pools.len() ==> (
        #[trigger] m.entities[i]).name != (#[trigger] m.pools[j]).name
    &&& forall|i: int, j: int|
        0 <= i < j < m.channels.len() ==> (#[trigger] m.channels[i]).0 != (
        #[trigger] m.channels[j]).0
    &&& forall|i: int, j: int|
        0 <= i < j < m.fields.len() ==> (#[trigger] m.fields[i]).name != (
        #[trigger] m.fields[j]).name
}

/// Whether every entity and pool that is merged has an owner.
pub open spec fn all_owned(s: MergeView) -> bool {
    &&& forall|i: int|
        0 <= i < s.program.model.entities.len() ==> assoc_get(
            s.owners,
            (#[trigger] s.program.model.entities[i]).name,
        ) is Some
    &&& forall|i: int|
        0 <= i < s.program.model.pools.len() ==> assoc_get(
            s.owners,
            (#[trigger] s.program.model.pools[i]).name,
        ) is Some
}

proof fn lemma_owned_stays(s: MergeView, name: Seq<char>, who: Seq<char>)
    requires
        all_owned(s),
    ensures
        all_owned(MergeView { owners: assoc_insert(s.owners, name, who), ..s }),
{
    let t = MergeView { owners: assoc_insert(s.owners, name, who), ..s };
    assert forall|i: int| 0 <= i < t.program.model.entities.len() implies assoc_get(
        t.owners,
        (#[trigger] t.program.model.entities[i]).name,
    ) is Some by {
        law_insert_then_get(s.owners, name, who, t.program.model.entities[i].name);
    }
    assert forall|i: int| 0 <= i < t.program.model.pools.len() implies assoc_get(
        t.owners,
        (#[trigger] t.program.model.pools[i]).name,
    ) is Some by {
        law_insert_then_get(s.owners, name, who, t.program.model.pools[i].name);
    }
}

proof fn lemma_entities_distinct(s: MergeView, list: Seq<EntityView>, who: Seq<char>)
    requires
        content_distinct(s.program.model),
        all_owned(s),
    ensures
        entities_in(s, list, who) matches Ok(t) ==> content_distinct(t.program.model)
            && all_owned(t),
    decreases list.len(),
{
    if list.len() > 0 && assoc_get(s.owners, list[0].name) is None {
        let e = list[0];
        lemma_owned_stays(s, e.name, who);
        law_insert_then_get(s.owners, e.name, who, e.name);
        let model = ModelView {
            entities: s.program.model.entities.push(e),
            ..s.program.model
        };
        let next = MergeView {
            owners: assoc_insert(s.owners, e.name, who),
            ..with_model(s, model)
        };
        assert(all_owned(next));
        lemma_entities_distinct(next, list.drop_first(), who);
    }
}

proof fn lemma_pools_distinct(s: MergeView, list: Seq<PoolView>, who: Seq<char>)
    requires
        content_distinct(s.program.model),
        all_owned(s),
    ensures
        pools_in(s, list, who) matches Ok(t) ==> content_distinct(t.program.model)
            && all_owned(t),
    decreases list.len(),
{
    if list.len() > 0 && assoc_get(s.owners, list[0].name) is None {
        let p = list[0];
        lemma_owned_stays(s, p.name, who);
        law_insert_then_get(s.owners, p.name, who, p.name);
        let model = ModelView {
            pools: s.program.model.pools.push(p),
            ..s.program.model
        };
        let next = MergeView {
            owners: assoc_insert(s.owners, p.name, who),
            ..with_model(s, model)
        };
        assert(all_owned(next));
        lemma_pools_distinct(next, list.drop_first(), who);
    }
}

proof fn lemma_channels_distinct(s: MergeView, list: Seq<(Seq<char>, u64)>)
    requires
        content_distinct(s.program.model),
        all_owned(s),
    ensures
        channels_in(s, list) matches Ok(t) ==> content_distinct(t.program.model) && all_owned(t),
    decreases list.len(),
{
    if list.len() > 0 && !has_channel(s.program.model.channels, list[0].0) {
        let model = ModelView {
            channels: s.program.model.channels.push(list[0]),
            ..s.program.model
        };
        assert(content_distinct(model));
        lemma_channels_distinct(with_model(s, model), list.drop_first());
    }
}

proof fn lemma_fields_distinct(s: MergeView, list: Seq<FieldView>)
    requires
        content_distinct(s.program.model),
        all_owned(s),
    ensures
        fields_in(s, list) matches Ok(t) ==> content_distinct(t.program.model) && all_owned(t),
    decreases list.len(),
{
    if list.len() > 0 && !has_field(s.program.model.fields, list[0].name) {
        let model = ModelView {
            fields: s.program.model.fields.push(list[0]),
            ..s.program.model
        };
        assert(content_distinct(model));
        lemma_fields_distinct(with_model(s, model), list.drop_first());
    }
}

/// Whether two worlds have the same content: entities, pools, channels and fields.
pub open spec fn same_content(a: ModelView, b: ModelView) -> bool {
    a.entities == b.entities && a.pools == b.pools && a.channels == b.channels && a.fields
        == b.fields
}

proof fn lemma_params_content(
    model: ModelView,
    params: Seq<(Seq<char>, u64)>,
    ns: Seq<char>,
    aliases: Seq<Seq<char>>,
)
    ensures
        same_content(params_in(model, params, ns, aliases), model),
    decreases params.len(),
{
    if params.len() > 0 {
        let (name, value) = params[0];
        let canon = scoped(ns, name);
        lemma_aliases_content(model, name, value, canon, aliases);
        let next = param_as(
            param_aliases(model, name, value, canon, aliases),
            canon,
            value,
            canon,
        );
        lemma_params_content(next, params.drop_first(), ns, aliases);
    }
}

proof fn lemma_aliases_content(
    model: ModelView,
    name: Seq<char>,
    value: u64,
    canon: Seq<char>,
    aliases: Seq<Seq<char>>,
)
    ensures
        same_content(param_aliases(model, name, value, canon, aliases), model),
    decreases aliases.len(),
{
    if aliases.len() > 0 {
        lemma_aliases_content(
            param_as(model, scoped(aliases[0], name), value, canon),
            name,
            value,
            canon,
            aliases.drop_first(),
        );
    }
}

proof fn lemma_bare_content(p: ProgramView, list: Seq<(Seq<char>, Seq<char>)>)
    ensures
        same_content(bare_in(p, list).model, p.model),
    decreases list.len(),
{
    if list.len() > 0 {
        let (bare, full) = list[0];
        let at = func_place(p.funcs, full);
        let funcs = if func_place(p.funcs, bare) >= p.funcs.len() && at < p.funcs.len() {
            p.funcs.push(FuncView { name: bare, ..p.funcs[at as int] })
        } else {
            p.funcs
        };
        let model = match (assoc_get(p.model.param_alias, full), assoc_get(p.model.params, full)) {
            (Some(canon), Some(value)) => ModelView {
                params: assoc_insert(p.model.params, bare, value),
                param_alias: assoc_insert(p.model.param_alias, bare, canon),
                ..p.model
            },
            _ => p.model,
        };
        lemma_bare_content(ProgramView { model, funcs, ..p }, list.drop_first());
    }
}

proof fn lemma_module_distinct(s: MergeView, m: ModuleView, first: bool)
    requires
        content_distinct(s.program.model),
        all_owned(s),
    ensures
        module_in(s, m, first) matches Ok(t) ==> content_distinct(t.program.model)
            && all_owned(t),
{
    if module_in(s, m, first) is Ok {
        let model = ModelView {
            gravity: if first {
                m.parsed.model.gravity
            } else {
                s.program.model.gravity
            },
            title: if s.program.model.title is None {
                m.parsed.model.title
            } else {
                s.program.model.title
            },
            ..s.program.model
        };
        let s0 = with_model(s, model);
        lemma_entities_distinct(s0, m.parsed.model.entities, m.path);
        let s1 = entities_in(s0, m.parsed.model.entities, m.path)->Ok_0;
        lemma_pools_distinct(s1, m.parsed.model.pools, m.path);
        let s2 = pools_in(s1, m.parsed.model.pools, m.path)->Ok_0;
        let model = ModelView {
            shapes: shapes_in(s2.program.model.shapes, m.parsed.model.shapes),
            ..s2.program.model
        };
        lemma_channels_distinct(with_model(s2, model), m.parsed.model.channels);
        let s3 = channels_in(with_model(s2, model), m.parsed.model.channels)->Ok_0;
        lemma_fields_distinct(s3, m.parsed.model.fields);
        let s4 = fields_in(s3, m.parsed.model.fields)->Ok_0;
        lemma_params_content(s4.program.model, m.parsed.model.params, m.ns, m.aliases);
    }
}

proof fn lemma_modules_distinct(s: MergeView, list: Seq<ModuleView>, first: bool)
    requires
        content_distinct(s.program.model),
        all_owned(s),
    ensures
        modules_in(s, list, first) matches Ok(t) ==> content_distinct(t.program.model)
            && all_owned(t),
    decreases list.len(),
{
    if list.len() > 0 {
        lemma_module_distinct(s, list[0], first);
        if let Ok(t) = module_in(s, list[0], first) {
            lemma_modules_distinct(t, list.drop_first(), false);
        }
    }
}

proof fn lemma_func_place(funcs: Seq<FuncView>, i: int)
    requires
        0 <= i < funcs.len(),
    ensures
        func_place(funcs, funcs[i].name) <= i,
    decreases funcs.len(),
{
    if funcs[0].name != funcs[i].name {
        lemma_func_place(funcs.drop_first(), i - 1);
    }
}

proof fn lemma_unrepeated(funcs: Seq<FuncView>, from: nat, j: int)
    requires
        repeated_from(funcs, from) is None,
        from <= j < funcs.len(),
    ensures
        func_place(funcs, funcs[j].name) >= j,
    decreases j - from,
{
    if from < j {
        lemma_unrepeated(funcs, from + 1, j);
    }
}

/// In a merged program no two entities or pools have the same name, nor two channels,
/// nor two fields, nor two functions.
pub proof fn law_merged_names_are_distinct(
    modules: Seq<ModuleView>,
    aliases: Seq<(Seq<char>, Seq<char>)>,
)
    requires
        merged(modules, aliases) is Ok,
    ensures
        content_distinct(merged(modules, aliases)->Ok_0.model),
        ({
            let funcs = merged(modules, aliases)->Ok_0.funcs;
            forall|i: int, j: int|
                0 <= i < j < funcs.len() ==> (#[trigger] funcs[i]).name != (
                #[trigger] funcs[j]).name
        }),
{
    let start = MergeView {
        program: ProgramView {
            model: crate::decl::bare_world(),
            systems: Seq::empty(),
            funcs: Seq::empty(),
        },
        owners: Seq::empty(),
    };
    lemma_modules_distinct(start, modules, true);
    let s = modules_in(start, modules, true)->Ok_0;
    lemma_bare_content(s.program, aliases);
    let funcs = merged(modules, aliases)->Ok_0.funcs;
    assert forall|i: int, j: int| 0 <= i < j < funcs.len() implies (#[trigger] funcs[i]).name != (
    #[trigger] funcs[j]).name by {
        lemma_unrepeated(funcs, 0, j);
        lemma_func_place(funcs, i);
    }
}

/// Whether two merges differ at most in the paths that they name as owners.
pub open spec fn alike(s: MergeView, t: MergeView) -> bool {
    &&& s.program == t.program
    &&& forall|name: Seq<char>|
        (#[trigger] assoc_get(s.owners, name)) is Some <==> assoc_get(t.owners, name) is Some
}

/// Whether two outcomes are alike: two merges, or two faults.
pub open spec fn alike_outcomes(
    a: Result<MergeView, FaultView>,
    b: Result<MergeView, FaultView>,
) -> bool {
    match (a, b) {
        (Ok(s), Ok(t)) => alike(s, t),
        (Err(_), Err(_)) => true,
        _ => false,
    }
}

proof fn lemma_alike_owners(
    s: MergeView,
    t: MergeView,
    name: Seq<char>,
    a: Seq<char>,
    b: Seq<char>,
    program: ProgramView,
)
    requires
        alike(s, t),
    ensures
        alike(
            MergeView { owners: assoc_insert(s.owners, name, a), program },
            MergeView { owners: assoc_insert(t.owners, name, b), program },
        ),
{
    let x = MergeView { owners: assoc_insert(s.owners, name, a), program };
    let y = MergeView { owners: assoc_insert(t.owners, name, b), program };
    assert forall|other: Seq<char>|
        (#[trigger] assoc_get(x.owners, other)) is Some <==> assoc_get(y.owners, other) is Some by {
        law_insert_then_get(s.owners, name, a, other);
        law_insert_then_get(t.owners, name, b, other);
        assert(assoc_get(s.owners, other) is Some <==> assoc_get(t.owners, other) is Some);
    }
}

proof fn lemma_entities_alike(
    s: MergeView,
    t: MergeView,
    list: Seq<EntityView>,
    a: Seq<char>,
    b: Seq<char>,
)
    requires
        alike(s, t),
    ensures
        alike_outcomes(entities_in(s, list, a), entities_in(t, list, b)),
    decreases list.len(),
{
    if list.len() > 0 {
        let e = list[0];
        assert(assoc_get(s.owners, e.name) is Some <==> assoc_get(t.owners, e.name) is Some);
        if assoc_get(s.owners, e.name) is None {
            let model = ModelView {
                entities: s.program.model.entities.push(e),
                ..s.program.model
            };
            let program = ProgramView { model, ..s.program };
            lemma_alike_owners(s, t, e.name, a, b, program);
            lemma_entities_alike(
                MergeView { owners: assoc_insert(s.owners, e.name, a), program },
                MergeView { owners: assoc_insert(t.owners, e.name, b), program },
                list.drop_first(),
                a,
                b,
            );
        }
    }
}

proof fn lemma_pools_alike(
    s: MergeView,
    t: MergeView,
    list: Seq<PoolView>,
    a: Seq<char>,
    b: Seq<char>,
)
    requires
        alike(s, t),
    ensures
        alike_outcomes(pools_in(s, list, a), pools_in(t, list, b)),
    decreases list.len(),
{
    if list.len() > 0 {
        let p = list[0];
        assert(assoc_get(s.owners, p.name) is Some <==> assoc_get(t.owners, p.name) is Some);
        if assoc_get(s.owners, p.name) is None {
            let model = ModelView {
                pools: s.program.model.pools.push(p),
                ..s.program.model
            };
            let program = ProgramView { model, ..s.program };
            lemma_alike_owners(s, t, p.name, a, b, program);
            lemma_pools_alike(
                MergeView { owners: assoc_insert(s.owners, p.name, a), program },
                MergeView { owners: assoc_insert(t.owners, p.name, b), program },
                list.drop_first(),
                a,
                b,
            );
        }
    }
}

proof fn lemma_channels_alike(s: MergeView, t: MergeView, list: Seq<(Seq<char>, u64)>)
    requires
        alike(s, t),
    ensures
        alike_outcomes(channels_in(s, list), channels_in(t, list)),
    decreases list.len(),
{
    if list.len() > 0 && !has_channel(s.program.model.channels, list[0].0) {
        let model = ModelView {
            channels: s.program.model.channels.push(list[0]),
            ..s.program.model
        };
        lemma_channels_alike(with_model(s, model), with_model(t, model), list.drop_first());
    }
}

proof fn lemma_fields_alike(s: MergeView, t: MergeView, list: Seq<FieldView>)
    requires
        alike(s, t),
    ensures
        alike_outcomes(fields_in(s, list), fields_in(t, list)),
    decreases list.len(),
{
    if list.len() > 0 && !has_field(s.program.model.fields, list[0].name) {
        let model = ModelView {
            fields: s.program.model.fields.push(list[0]),
            ..s.program.model
        };
        lemma_fields_alike(with_model(s, model), with_model(t, model), list.drop_first());
    }
}

proof fn lemma_module_alike(
    s: MergeView,
    t: MergeView,
    m: ModuleView,
    path: Seq<char>,
    first: bool,
)
    requires
        alike(s, t),
    ensures
        alike_outcomes(module_in(s, m, first), module_in(t, ModuleView { path, ..m }, first)),
{
    let model = ModelView {
        gravity: if first {
            m.parsed.model.gravity
        } else {
            s.program.model.gravity
        },
        title: if s.program.model.title is None {
            m.parsed.model.title
        } else {
            s.program.model.title
        },
        ..s.program.model
    };
    let s0 = with_model(s, model);
    let t0 = with_model(t, model);
    lemma_entities_alike(s0, t0, m.parsed.model.entities, m.path, path);
    if let Ok(s1) = entities_in(s0, m.parsed.model.entities, m.path) {
        let t1 = entities_in(t0, m.parsed.model.entities, path)->Ok_0;
        lemma_pools_alike(s1, t1, m.parsed.model.pools, m.path, path);
        if let Ok(s2) = pools_in(s1, m.parsed.model.pools, m.path) {
            let t2 = pools_in(t1, m.parsed.model.pools, path)->Ok_0;
            let model = ModelView {
                shapes: shapes_in(s2.program.model.shapes, m.parsed.model.shapes),
                ..s2.program.model
            };
            let s3 = with_model(s2, model);
            let t3 = with_model(t2, model);
            lemma_channels_alike(s3, t3, m.parsed.model.channels);
            if let Ok(s4) = channels_in(s3, m.parsed.model.channels) {
                let t4 = channels_in(t3, m.parsed.model.channels)->Ok_0;
                lemma_fields_alike(s4, t4, m.parsed.model.fields);
            }
        }
    }
}

proof fn lemma_modules_alike(s: MergeView, t: MergeView, list: Seq<ModuleView>)
    requires
        alike(s, t),
    ensures
        alike_outcomes(modules_in(s, list, false), modules_in(t, list, false)),
    decreases list.len(),
{
    if list.len() > 0 {
        let m = list[0];
        lemma_module_alike(s, t, m, m.path, false);
        assert(ModuleView { path: m.path, ..m } == m);
        if let Ok(s1) = module_in(s, m, false) {
            let t1 = module_in(t, m, false)->Ok_0;
            lemma_modules_alike(s1, t1, list.drop_first());
        }
    }
}

/// The path of the root module shows in messages only: it has no part in the program.
pub proof fn law_root_path_is_only_shown(
    root: ModuleView,
    path: Seq<char>,
    rest: Seq<ModuleView>,
    aliases: Seq<(Seq<char>, Seq<char>)>,
)
    ensures
        ({
            let a = merged(seq![root] + rest, aliases);
            let b = merged(seq![ModuleView { path, ..root }] + rest, aliases);
            (a is Ok <==> b is Ok) && (a is Ok ==> a == b)
        }),
{
    let start = MergeView {
        program: ProgramView {
            model: crate::decl::bare_world(),
            systems: Seq::empty(),
            funcs: Seq::empty(),
        },
        owners: Seq::empty(),
    };
    let other = ModuleView { path, ..root };
    assert((seq![root] + rest).drop_first() =~= rest);
    assert((seq![other] + rest).drop_first() =~= rest);
    lemma_module_alike(start, start, root, path, true);
    if let Ok(s) = module_in(start, root, true) {
        let t = module_in(start, other, true)->Ok_0;
        lemma_modules_alike(s, t, rest);
    }
}

proof fn lemma_bare_keeps(p: ProgramView, list: Seq<(Seq<char>, Seq<char>)>, key: Seq<char>)
    requires
        forall|j: int| 0 <= j < list.len() ==> (#[trigger] list[j]).0 != key,
    ensures
        assoc_get(bare_in(p, list).model.params, key) == assoc_get(p.model.params, key),
        assoc_get(bare_in(p, list).model.param_alias, key) == assoc_get(p.model.param_alias, key),
    decreases list.len(),
{
    if list.len() > 0 {
        let (bare, full) = list[0];
        assert(list[0].0 != key);
        let rest = list.drop_first();
        assert forall|j: int| 0 <= j < rest.len() implies (#[trigger] rest[j]).0 != key by {
            assert(rest[j] == list[j + 1]);
        }
        let q = bare_in(p, seq![list[0]]);
        lemma_bare_first(p, list);
        reveal_with_fuel(bare_in, 2);
        assert(seq![list[0]].drop_first() =~= Seq::<(Seq<char>, Seq<char>)>::empty());
        if let (Some(canon), Some(value)) = (
            assoc_get(p.model.param_alias, full),
            assoc_get(p.model.params, full),
        ) {
            law_insert_then_get(p.model.params, bare, value, key);
            law_insert_then_get(p.model.param_alias, bare, canon, key);
        }
        lemma_bare_keeps(q, rest, key);
    }
}

proof fn lemma_bare_first(p: ProgramView, list: Seq<(Seq<char>, Seq<char>)>)
    requires
        list.len() > 0,
    ensures
        bare_in(p, list) == bare_in(bare_in(p, seq![list[0]]), list.drop_first()),
{
    reveal_with_fuel(bare_in, 2);
    assert(seq![list[0]].drop_first() =~= Seq::<(Seq<char>, Seq<char>)>::empty());
}

proof fn lemma_bare_param(p: ProgramView, list: Seq<(Seq<char>, Seq<char>)>, i: int)
    requires
        0 <= i < list.len(),
        forall|j: int|
            i < j < list.len() ==> (#[trigger] list[j]).0 != list[i].0 && list[j].0 != list[i].1,
        assoc_get(bare_in(p, list).model.params, list[i].1) is Some,
        assoc_get(bare_in(p, list).model.param_alias, list[i].1) is Some,
    ensures
        assoc_get(bare_in(p, list).model.params, list[i].0) == assoc_get(
            bare_in(p, list).model.params,
            list[i].1,
        ),
        assoc_get(bare_in(p, list).model.param_alias, list[i].0) == assoc_get(
            bare_in(p, list).model.param_alias,
            list[i].1,
        ),
    decreases list.len(),
{
    let rest = list.drop_first();
    let q = bare_in(p, seq![list[0]]);
    lemma_bare_first(p, list);
    if i > 0 {
        assert(rest[i - 1] == list[i]);
        assert forall|j: int| i - 1 < j < rest.len() implies (#[trigger] rest[j]).0 != rest[i - 1].0
            && rest[j].0 != rest[i - 1].1 by {
            assert(rest[j] == list[j + 1]);
        }
        lemma_bare_param(q, rest, i - 1);
    } else {
        let (bare, full) = list[0];
        assert forall|j: int| 0 <= j < rest.len() implies (#[trigger] rest[j]).0 != bare
            && rest[j].0 != full by {
            assert(rest[j] == list[j + 1]);
        }
        lemma_bare_keeps(q, rest, bare);
        lemma_bare_keeps(q, rest, full);
        reveal_with_fuel(bare_in, 2);
        assert(seq![list[0]].drop_first() =~= Seq::<(Seq<char>, Seq<char>)>::empty());
        if let (Some(canon), Some(value)) = (
            assoc_get(p.model.param_alias, full),
            assoc_get(p.model.params, full),
        ) {
            law_insert_then_get(p.model.params, bare, value, bare);
            law_insert_then_get(p.model.params, bare, value, full);
            law_insert_then_get(p.model.param_alias, bare, canon, bare);
            law_insert_then_get(p.model.param_alias, bare, canon, full);
        }
    }
}

/// A `from` import of a parameter binds its bare name: in the merged program that name has
/// the value of the qualified one, and stands for the same parameter. Where a bare name is
/// bound more than once, the last import counts.
pub proof fn law_from_import_binds_parameter(
    modules: Seq<ModuleView>,
    aliases: Seq<(Seq<char>, Seq<char>)>,
    i: int,
)
    requires
        0 <= i < aliases.len(),
        forall|j: int|
            i < j < aliases.len() ==> (#[trigger] aliases[j]).0 != aliases[i].0 && aliases[j].0
                != aliases[i].1,
        merged(modules, aliases) is Ok,
        assoc_get(merged(modules, aliases)->Ok_0.model.params, aliases[i].1) is Some,
        assoc_get(merged(modules, aliases)->Ok_0.model.param_alias, aliases[i].1) is Some,
    ensures
        ({
            let model = merged(modules, aliases)->Ok_0.model;
            let (bare, full) = aliases[i];
            &&& assoc_get(model.params, bare) == assoc_get(model.params, full)
            &&& assoc_get(model.param_alias, bare) == assoc_get(model.param_alias, full)
        }),
{
    let s = modules_in(empty_merge(), modules, true)->Ok_0;
    lemma_bare_param(s.program, aliases, i);
}

/// A merge that nothing has gone into yet.
pub open spec fn empty_merge() -> MergeView {
    MergeView {
        program: ProgramView {
            model: crate::decl::bare_world(),
            systems: Seq::empty(),
            funcs: Seq::empty(),
        },
        owners: Seq::empty(),
    }
}

/// The spaces that a module's names are kept under: its aliases, and its own namespace.
pub open spec fn space_of(m: ModuleView, space: Seq<char>) -> bool {
    m.aliases.contains(space) || space == m.ns
}

proof fn lemma_aliases_params(
    model: ModelView,
    name: Seq<char>,
    value: u64,
    canon: Seq<char>,
    aliases: Seq<Seq<char>>,
    key: Seq<char>,
)
    ensures
        ({
            let after = param_aliases(model, name, value, canon, aliases);
            if exists|k: int| 0 <= k < aliases.len() && key == scoped(#[trigger] aliases[k], name) {
                &&& assoc_get(after.param_alias, key) == Some(canon)
                &&& assoc_get(after.params, key) == (match assoc_get(model.params, key) {
                    Some(old) => Some(old),
                    None => Some(value),
                })
            } else {
                &&& assoc_get(after.param_alias, key) == assoc_get(model.param_alias, key)
                &&& assoc_get(after.params, key) == assoc_get(model.params, key)
            }
        }),
    decreases aliases.len(),
{
    if aliases.len() > 0 {
        let first = scoped(aliases[0], name);
        let next = param_as(model, first, value, canon);
        let rest = aliases.drop_first();
        lemma_param_as(model, first, value, canon, key);
        lemma_aliases_params(next, name, value, canon, rest, key);
        if exists|k: int| 0 <= k < rest.len() && key == scoped(#[trigger] rest[k], name) {
            let k = choose|k: int| 0 <= k < rest.len() && key == scoped(#[trigger] rest[k], name);
            assert(aliases[k + 1] == rest[k]);
        }
        if exists|k: int| 0 <= k < aliases.len() && key == scoped(#[trigger] aliases[k], name) {
            let k = choose|k: int|
                0 <= k < aliases.len() && key == scoped(#[trigger] aliases[k], name);
            if k > 0 {
                assert(rest[k - 1] == aliases[k]);
            }
        }
        if key == first {
            assert(key == scoped(aliases[0], name));
        }
    }
}

proof fn lemma_param_as(
    model: ModelView,
    at: Seq<char>,
    value: u64,
    canon: Seq<char>,
    key: Seq<char>,
)
    ensures
        ({
            let after = param_as(model, at, value, canon);
            &&& assoc_get(after.param_alias, key) == (if key == at {
                Some(canon)
            } else {
                assoc_get(model.param_alias, key)
            })
            &&& assoc_get(after.params, key) == (if key == at && assoc_get(
                model.params,
                key,
            ) is None {
                Some(value)
            } else {
                assoc_get(model.params, key)
            })
        }),
{
    law_insert_then_get(model.param_alias, at, canon, key);
    law_insert_then_get(model.params, at, value, key);
}

/// Whether a parameter of a list has a key under one of the spaces of its module.
pub open spec fn gives(list: Seq<(Seq<char>, u64)>, i: int, m: ModuleView, key: Seq<char>) -> bool {
    exists|space: Seq<char>|
        #[trigger] space_of(m, space) && key == scoped(space, list[i].0)
}

proof fn lemma_params_in(
    model: ModelView,
    list: Seq<(Seq<char>, u64)>,
    m: ModuleView,
    key: Seq<char>,
)
    ensures
        (forall|i: int| 0 <= i < list.len() ==> !#[trigger] gives(list, i, m, key)) ==> {
            &&& assoc_get(params_in(model, list, m.ns, m.aliases).params, key) == assoc_get(
                model.params,
                key,
            )
            &&& assoc_get(params_in(model, list, m.ns, m.aliases).param_alias, key) == assoc_get(
                model.param_alias,
                key,
            )
        },
        forall|i: int|
            0 <= i < list.len() && #[trigger] gives(list, i, m, key) && (forall|j: int|
                0 <= j < list.len() && j != i ==> !#[trigger] gives(list, j, m, key)) && assoc_get(
                model.params,
                key,
            ) is None ==> assoc_get(params_in(model, list, m.ns, m.aliases).params, key) == Some(
                list[i].1,
            ) && assoc_get(params_in(model, list, m.ns, m.aliases).param_alias, key) == Some(
                scoped(m.ns, list[i].0),
            ),
    decreases list.len(),
{
    if list.len() > 0 {
        let (name, value) = list[0];
        let canon = scoped(m.ns, name);
        let mid = param_aliases(model, name, value, canon, m.aliases);
        let next = param_as(mid, canon, value, canon);
        let rest = list.drop_first();
        lemma_aliases_params(model, name, value, canon, m.aliases, key);
        lemma_param_as(mid, canon, value, canon, key);
        lemma_params_in(next, rest, m, key);
        if exists|k: int| 0 <= k < m.aliases.len() && key == scoped(#[trigger] m.aliases[k], name) {
            let k = choose|k: int|
                0 <= k < m.aliases.len() && key == scoped(#[trigger] m.aliases[k], name);
            assert(space_of(m, m.aliases[k]));
            assert(gives(list, 0, m, key));
        }
        if key == canon {
            assert(space_of(m, m.ns));
            assert(gives(list, 0, m, key));
        }
        if gives(list, 0, m, key) {
            let space = choose|space: Seq<char>|
                #[trigger] space_of(m, space) && key == scoped(space, list[0].0);
            if m.aliases.contains(space) {
                let k = choose|k: int| 0 <= k < m.aliases.len() && m.aliases[k] == space;
                assert(key == scoped(m.aliases[k], name));
            }
            assert(assoc_get(next.param_alias, key) == Some(canon));
        } else {
            assert(assoc_get(next.param_alias, key) == assoc_get(model.param_alias, key));
            assert(assoc_get(next.params, key) == assoc_get(model.params, key));
        }
        assert forall|i: int| 0 <= i < rest.len() implies #[trigger] gives(rest, i, m, key)
            == gives(list, i + 1, m, key) by {
            assert(rest[i] == list[i + 1]);
        }
        if forall|i: int| 0 <= i < list.len() ==> !#[trigger] gives(list, i, m, key) {
            assert(!gives(list, 0, m, key));
            assert forall|i: int| 0 <= i < rest.len() implies !#[trigger] gives(rest, i, m, key) by {
                assert(!gives(list, i + 1, m, key));
            }
        }
        assert forall|i: int|
            0 <= i < list.len() && #[trigger] gives(list, i, m, key) && (forall|j: int|
                0 <= j < list.len() && j != i ==> !#[trigger] gives(list, j, m, key)) && assoc_get(
                model.params,
                key,
            ) is None implies assoc_get(params_in(model, list, m.ns, m.aliases).params, key)
            == Some(list[i].1) && assoc_get(
            params_in(model, list, m.ns, m.aliases).param_alias,
            key,
        ) == Some(scoped(m.ns, list[i].0)) by {
            if i == 0 {
                assert forall|j: int| 0 <= j < rest.len() implies !#[trigger] gives(
                    rest,
                    j,
                    m,
                    key,
                ) by {
                    assert(!gives(list, j + 1, m, key));
                }
            } else {
                assert(!gives(list, 0, m, key));
                assert(gives(rest, i - 1, m, key) == gives(list, i, m, key));
                assert(rest[i - 1] == list[i]);
                assert forall|j: int| 0 <= j < rest.len() && j != i - 1 implies !#[trigger] gives(
                    rest,
                    j,
                    m,
                    key,
                ) by {
                    assert(!gives(list, j + 1, m, key));
                }
            }
        }
    }
}

proof fn lemma_entities_flat(s: MergeView, list: Seq<EntityView>, who: Seq<char>)
    ensures
        entities_in(s, list, who) matches Ok(t) ==> t.program == (ProgramView {
            model: ModelView {
                entities: s.program.model.entities + list,
                ..s.program.model
            },
            ..s.program
        }),
    decreases list.len(),
{
    if list.len() == 0 {
        assert(s.program.model.entities + list =~= s.program.model.entities);
    } else if assoc_get(s.owners, list[0].name) is None {
        let model = ModelView {
            entities: s.program.model.entities.push(list[0]),
            ..s.program.model
        };
        let next = MergeView {
            owners: assoc_insert(s.owners, list[0].name, who),
            ..with_model(s, model)
        };
        lemma_entities_flat(next, list.drop_first(), who);
        assert(model.entities + list.drop_first() =~= s.program.model.entities + list);
    }
}

proof fn lemma_pools_flat(s: MergeView, list: Seq<PoolView>, who: Seq<char>)
    ensures
        pools_in(s, list, who) matches Ok(t) ==> t.program == (ProgramView {
            model: ModelView { pools: s.program.model.pools + list, ..s.program.model },
            ..s.program
        }),
    decreases list.len(),
{
    if list.len() == 0 {
        assert(s.program.model.pools + list =~= s.program.model.pools);
    } else if assoc_get(s.owners, list[0].name) is None {
        let model = ModelView { pools: s.program.model.pools.push(list[0]), ..s.program.model };
        let next = MergeView {
            owners: assoc_insert(s.owners, list[0].name, who),
            ..with_model(s, model)
        };
        lemma_pools_flat(next, list.drop_first(), who);
        assert(model.pools + list.drop_first() =~= s.program.model.pools + list);
    }
}

proof fn lemma_channels_flat(s: MergeView, list: Seq<(Seq<char>, u64)>)
    ensures
        channels_in(s, list) matches Ok(t) ==> t.program == (ProgramView {
            model: ModelView { channels: s.program.model.channels + list, ..s.program.model },
            ..s.program
        }),
    decreases list.len(),
{
    if list.len() == 0 {
        assert(s.program.model.channels + list =~= s.program.model.channels);
    } else if !has_channel(s.program.model.channels, list[0].0) {
        let model = ModelView {
            channels: s.program.model.channels.push(list[0]),
            ..s.program.model
        };
        lemma_channels_flat(with_model(s, model), list.drop_first());
        assert(model.channels + list.drop_first() =~= s.program.model.channels + list);
    }
}

proof fn lemma_fields_flat(s: MergeView, list: Seq<FieldView>)
    ensures
        fields_in(s, list) matches Ok(t) ==> t.program == (ProgramView {
            model: ModelView { fields: s.program.model.fields + list, ..s.program.model },
            ..s.program
        }),
    decreases list.len(),
{
    if list.len() == 0 {
        assert(s.program.model.fields + list =~= s.program.model.fields);
    } else if !has_field(s.program.model.fields, list[0].name) {
        let model = ModelView { fields: s.program.model.fields.push(list[0]), ..s.program.model };
        lemma_fields_flat(with_model(s, model), list.drop_first());
        assert(model.fields + list.drop_first() =~= s.program.model.fields + list);
    }
}

/// Systems as they stand in their module's namespace.
pub open spec fn spaced(list: Seq<SystemDeclView>, ns: Seq<char>) -> Seq<SystemDeclView> {
    list.map_values(|d: SystemDeclView| SystemDeclView { namespace: ns, ..d })
}

proof fn lemma_systems_flat(
    systems: Seq<SystemDeclView>,
    list: Seq<SystemDeclView>,
    ns: Seq<char>,
)
    ensures
        systems_in(systems, list, ns) == systems + spaced(list, ns),
    decreases list.len(),
{
    if list.len() == 0 {
        assert(systems + spaced(list, ns) =~= systems);
    } else {
        let sys = SystemDeclView { namespace: ns, ..list[0] };
        lemma_systems_flat(systems.push(sys), list.drop_first(), ns);
        assert(systems.push(sys) + spaced(list.drop_first(), ns) =~= systems + spaced(list, ns));
    }
}

/// What a module adds to a merge that it fits into.
proof fn lemma_module_adds(s: MergeView, m: ModuleView, first: bool)
    requires
        module_in(s, m, first) is Ok,
    ensures
        ({
            let p = s.program;
            let q = module_in(s, m, first)->Ok_0.program;
            let added = m.parsed.model;
            &&& q.model.entities == p.model.entities + added.entities
            &&& q.model.pools == p.model.pools + added.pools
            &&& q.model.channels == p.model.channels + added.channels
            &&& q.model.fields == p.model.fields + added.fields
            &&& q.systems == p.systems + spaced(m.parsed.systems, m.ns)
            &&& q.funcs == funcs_in(p.funcs, m.parsed.funcs, m.ns, m.aliases)
            &&& exists|model: ModelView|
                model.params == p.model.params && model.param_alias == p.model.param_alias
                    && q.model.params == (#[trigger] params_in(
                    model,
                    added.params,
                    m.ns,
                    m.aliases,
                )).params && q.model.param_alias == params_in(
                    model,
                    added.params,
                    m.ns,
                    m.aliases,
                ).param_alias
        }),
{
    let model = ModelView {
        gravity: if first {
            m.parsed.model.gravity
        } else {
            s.program.model.gravity
        },
        title: if s.program.model.title is None {
            m.parsed.model.title
        } else {
            s.program.model.title
        },
        ..s.program.model
    };
    let s0 = with_model(s, model);
    lemma_entities_flat(s0, m.parsed.model.entities, m.path);
    let s1 = entities_in(s0, m.parsed.model.entities, m.path)->Ok_0;
    lemma_pools_flat(s1, m.parsed.model.pools, m.path);
    let s2 = pools_in(s1, m.parsed.model.pools, m.path)->Ok_0;
    let shaped = ModelView {
        shapes: shapes_in(s2.program.model.shapes, m.parsed.model.shapes),
        ..s2.program.model
    };
    let s3 = with_model(s2, shaped);
    lemma_channels_flat(s3, m.parsed.model.channels);
    let s4 = channels_in(s3, m.parsed.model.channels)->Ok_0;
    lemma_fields_flat(s4, m.parsed.model.fields);
    let s5 = fields_in(s4, m.parsed.model.fields)->Ok_0;
    lemma_params_content(s5.program.model, m.parsed.model.params, m.ns, m.aliases);
    lemma_systems_flat(s5.program.systems, m.parsed.systems, m.ns);
    let done = params_in(s5.program.model, m.parsed.model.params, m.ns, m.aliases);
    assert(done.params == module_in(s, m, first)->Ok_0.program.model.params);
}

/// Parts of modules, one behind the other.
pub open spec fn all_of<T>(modules: Seq<ModuleView>, part: spec_fn(ModuleView) -> Seq<T>) -> Seq<T>
    decreases modules.len(),
{
    if modules.len() == 0 {
        Seq::empty()
    } else {
        part(modules[0]) + all_of(modules.drop_first(), part)
    }
}

proof fn lemma_all_added(s: MergeView, list: Seq<ModuleView>, first: bool)
    requires
        modules_in(s, list, first) is Ok,
    ensures
        ({
            let p = s.program;
            let q = modules_in(s, list, first)->Ok_0.program;
            &&& q.model.entities == p.model.entities + all_of(
                list,
                |m: ModuleView| m.parsed.model.entities,
            )
            &&& q.model.pools == p.model.pools + all_of(
                list,
                |m: ModuleView| m.parsed.model.pools,
            )
            &&& q.model.channels == p.model.channels + all_of(
                list,
                |m: ModuleView| m.parsed.model.channels,
            )
            &&& q.model.fields == p.model.fields + all_of(
                list,
                |m: ModuleView| m.parsed.model.fields,
            )
            &&& q.systems == p.systems + all_of(
                list,
                |m: ModuleView| spaced(m.parsed.systems, m.ns),
            )
        }),
    decreases list.len(),
{
    let p = s.program;
    let entities = |m: ModuleView| m.parsed.model.entities;
    let pools = |m: ModuleView| m.parsed.model.pools;
    let channels = |m: ModuleView| m.parsed.model.channels;
    let fields = |m: ModuleView| m.parsed.model.fields;
    let systems = |m: ModuleView| spaced(m.parsed.systems, m.ns);
    if list.len() == 0 {
        assert(p.model.entities + all_of(list, entities) =~= p.model.entities);
        assert(p.model.pools + all_of(list, pools) =~= p.model.pools);
        assert(p.model.channels + all_of(list, channels) =~= p.model.channels);
        assert(p.model.fields + all_of(list, fields) =~= p.model.fields);
        assert(p.systems + all_of(list, systems) =~= p.systems);
    } else {
        lemma_module_adds(s, list[0], first);
        let t = module_in(s, list[0], first)->Ok_0;
        let rest = list.drop_first();
        lemma_all_added(t, rest, false);
        let m = list[0];
        assert(p.model.entities + entities(m) + all_of(rest, entities) =~= p.model.entities
            + all_of(list, entities));
        assert(p.model.pools + pools(m) + all_of(rest, pools) =~= p.model.pools + all_of(
            list,
            pools,
        ));
        assert(p.model.channels + channels(m) + all_of(rest, channels) =~= p.model.channels
            + all_of(list, channels));
        assert(p.model.fields + fields(m) + all_of(rest, fields) =~= p.model.fields + all_of(
            list,
            fields,
        ));
        assert(p.systems + systems(m) + all_of(rest, systems) =~= p.systems + all_of(
            list,
            systems,
        ));
    }
}

proof fn lemma_bare_systems(p: ProgramView, list: Seq<(Seq<char>, Seq<char>)>)
    ensures
        bare_in(p, list).systems == p.systems,
    decreases list.len(),
{
    if list.len() > 0 {
        lemma_bare_first(p, list);
        reveal_with_fuel(bare_in, 2);
        assert(seq![list[0]].drop_first() =~= Seq::<(Seq<char>, Seq<char>)>::empty());
        lemma_bare_systems(bare_in(p, seq![list[0]]), list.drop_first());
    }
}

/// The content of a world merges flatly: the entities, pools, channels, fields and systems
/// of a merged program are those of its modules, one module behind the other, and every
/// system is in the namespace of its module.
pub proof fn law_content_merges_flatly(
    modules: Seq<ModuleView>,
    aliases: Seq<(Seq<char>, Seq<char>)>,
)
    requires
        merged(modules, aliases) is Ok,
    ensures
        ({
            let p = merged(modules, aliases)->Ok_0;
            &&& p.model.entities == all_of(modules, |m: ModuleView| m.parsed.model.entities)
            &&& p.model.pools == all_of(modules, |m: ModuleView| m.parsed.model.pools)
            &&& p.model.channels == all_of(modules, |m: ModuleView| m.parsed.model.channels)
            &&& p.model.fields == all_of(modules, |m: ModuleView| m.parsed.model.fields)
            &&& p.systems == all_of(modules, |m: ModuleView| spaced(m.parsed.systems, m.ns))
        }),
{
    let s = modules_in(empty_merge(), modules, true)->Ok_0;
    lemma_all_added(empty_merge(), modules, true);
    lemma_bare_content(s.program, aliases);
    lemma_bare_systems(s.program, aliases);
    let p = merged(modules, aliases)->Ok_0;
    assert(p.model.entities =~= all_of(modules, |m: ModuleView| m.parsed.model.entities));
    assert(p.model.pools =~= all_of(modules, |m: ModuleView| m.parsed.model.pools));
    assert(p.model.channels =~= all_of(modules, |m: ModuleView| m.parsed.model.channels));
    assert(p.model.fields =~= all_of(modules, |m: ModuleView| m.parsed.model.fields));
    assert(p.systems =~= all_of(modules, |m: ModuleView| spaced(m.parsed.systems, m.ns)));
}

/// Whether the parameter of a module at a place has a key under one of its spaces.
pub open spec fn provides(modules: Seq<ModuleView>, k: int, i: int, key: Seq<char>) -> bool {
    0 <= k < modules.len() && 0 <= i < modules[k].parsed.model.params.len() && gives(
        modules[k].parsed.model.params,
        i,
        modules[k],
        key,
    )
}

proof fn lemma_provided(s: MergeView, list: Seq<ModuleView>, first: bool, key: Seq<char>)
    requires
        modules_in(s, list, first) is Ok,
    ensures
        ({
            let p = s.program.model;
            let q = modules_in(s, list, first)->Ok_0.program.model;
            &&& (forall|k: int, i: int| !#[trigger] provides(list, k, i, key)) ==> assoc_get(
                q.params,
                key,
            ) == assoc_get(p.params, key) && assoc_get(q.param_alias, key) == assoc_get(
                p.param_alias,
                key,
            )
            &&& forall|k: int, i: int| #[trigger]
                provides(list, k, i, key) && (forall|l: int, j: int|
                    (l != k || j != i) ==> !#[trigger] provides(list, l, j, key)) && assoc_get(
                    p.params,
                    key,
                ) is None ==> assoc_get(q.params, key) == Some(
                    list[k].parsed.model.params[i].1,
                ) && assoc_get(q.param_alias, key) == Some(
                    scoped(list[k].ns, list[k].parsed.model.params[i].0),
                )
        }),
    decreases list.len(),
{
    if list.len() > 0 {
        let m = list[0];
        let own = m.parsed.model.params;
        lemma_module_adds(s, m, first);
        let t = module_in(s, m, first)->Ok_0;
        let rest = list.drop_first();
        let model = choose|model: ModelView|
            model.params == s.program.model.params && model.param_alias
                == s.program.model.param_alias && t.program.model.params == (#[trigger] params_in(
                model,
                own,
                m.ns,
                m.aliases,
            )).params && t.program.model.param_alias == params_in(
                model,
                own,
                m.ns,
                m.aliases,
            ).param_alias;
        lemma_params_in(model, own, m, key);
        lemma_provided(t, rest, false, key);
        assert forall|l: int, j: int| #[trigger] provides(rest, l, j, key) == (l >= 0 && provides(
            list,
            l + 1,
            j,
            key,
        )) by {
            if 0 <= l < rest.len() {
                assert(rest[l] == list[l + 1]);
            }
        }
        if forall|k: int, i: int| !#[trigger] provides(list, k, i, key) {
            assert forall|i: int| 0 <= i < own.len() implies !#[trigger] gives(own, i, m, key) by {
                assert(!provides(list, 0, i, key));
            }
            assert forall|l: int, j: int| !#[trigger] provides(rest, l, j, key) by {
                assert(!provides(list, l + 1, j, key));
            }
        }
        let q = modules_in(s, list, first)->Ok_0.program.model;
        assert forall|k: int, i: int| #[trigger]
            provides(list, k, i, key) && (forall|l: int, j: int|
                (l != k || j != i) ==> !#[trigger] provides(list, l, j, key)) && assoc_get(
                s.program.model.params,
                key,
            ) is None implies assoc_get(q.params, key) == Some(list[k].parsed.model.params[i].1)
            && assoc_get(q.param_alias, key) == Some(
            scoped(list[k].ns, list[k].parsed.model.params[i].0),
        ) by {
            if k == 0 {
                assert(gives(own, i, m, key));
                assert forall|j: int| 0 <= j < own.len() && j != i implies !#[trigger] gives(
                    own,
                    j,
                    m,
                    key,
                ) by {
                    assert(!provides(list, 0, j, key));
                }
                assert forall|l: int, j: int| !#[trigger] provides(rest, l, j, key) by {
                    if l >= 0 {
                        assert(!provides(list, l + 1, j, key));
                    }
                }
            } else {
                assert forall|j: int| 0 <= j < own.len() implies !#[trigger] gives(
                    own,
                    j,
                    m,
                    key,
                ) by {
                    assert(!provides(list, 0, j, key));
                }
                assert(rest[k - 1] == list[k]);
                assert(provides(rest, k - 1, i, key));
                assert forall|l: int, j: int| (l != k - 1 || j != i) implies !#[trigger] provides(
                    rest,
                    l,
                    j,
                    key,
                ) by {
                    if l >= 0 {
                        assert(!provides(list, l + 1, j, key));
                    }
                }
            }
        }
    }
}

/// An imported parameter can be named under every alias of its module: it has its declared
/// value there, and stands for the parameter under the module's own namespace. This is of
/// keys that no other parameter gives and that no `from` import binds.
pub proof fn law_module_parameter_is_bound(
    modules: Seq<ModuleView>,
    aliases: Seq<(Seq<char>, Seq<char>)>,
    k: int,
    i: int,
    space: Seq<char>,
)
    requires
        merged(modules, aliases) is Ok,
        0 <= k < modules.len(),
        0 <= i < modules[k].parsed.model.params.len(),
        space_of(modules[k], space),
        ({
            let key = scoped(space, modules[k].parsed.model.params[i].0);
            &&& forall|l: int, j: int|
                (l != k || j != i) ==> !#[trigger] provides(modules, l, j, key)
            &&& forall|j: int| 0 <= j < aliases.len() ==> (#[trigger] aliases[j]).0 != key
        }),
    ensures
        ({
            let (name, value) = modules[k].parsed.model.params[i];
            let model = merged(modules, aliases)->Ok_0.model;
            &&& assoc_get(model.params, scoped(space, name)) == Some(value)
            &&& assoc_get(model.param_alias, scoped(space, name)) == Some(
                scoped(modules[k].ns, name),
            )
        }),
{
    let key = scoped(space, modules[k].parsed.model.params[i].0);
    let s = modules_in(empty_merge(), modules, true)->Ok_0;
    assert(gives(modules[k].parsed.model.params, i, modules[k], key));
    assert(provides(modules, k, i, key));
    lemma_provided(empty_merge(), modules, true, key);
    lemma_bare_keeps(s.program, aliases, key);
}

/// Whether a list of functions goes on where another one ends.
pub open spec fn goes_on(before: Seq<FuncView>, after: Seq<FuncView>) -> bool {
    before.len() <= after.len() && after.take(before.len() as int) == before
}

proof fn lemma_goes_on(a: Seq<FuncView>, b: Seq<FuncView>, c: Seq<FuncView>)
    requires
        goes_on(a, b),
        goes_on(b, c),
    ensures
        goes_on(a, c),
{
    assert(c.take(b.len() as int).take(a.len() as int) =~= c.take(a.len() as int));
}

proof fn lemma_kept_function(a: Seq<FuncView>, b: Seq<FuncView>, g: FuncView)
    requires
        goes_on(a, b),
        a.contains(g),
    ensures
        b.contains(g),
{
    let i = choose|i: int| 0 <= i < a.len() && a[i] == g;
    assert(b.take(a.len() as int)[i] == b[i]);
}

proof fn lemma_copied_functions(funcs: Seq<FuncView>, f: FuncView, aliases: Seq<Seq<char>>)
    ensures
        goes_on(funcs, func_aliases(funcs, f, aliases)),
        forall|k: int|
            0 <= k < aliases.len() ==> func_aliases(funcs, f, aliases).contains(
                (FuncView { name: scoped(#[trigger] aliases[k], f.name), namespace: aliases[k], ..f }),
            ),
    decreases aliases.len(),
{
    if aliases.len() == 0 {
        assert(funcs.take(funcs.len() as int) =~= funcs);
    } else {
        let g = FuncView { name: scoped(aliases[0], f.name), namespace: aliases[0], ..f };
        let next = funcs.push(g);
        lemma_copied_functions(next, f, aliases.drop_first());
        let all = func_aliases(funcs, f, aliases);
        assert(next.take(funcs.len() as int) =~= funcs);
        lemma_goes_on(funcs, next, all);
        assert(next[funcs.len() as int] == g);
        lemma_kept_function(next, all, g);
        assert forall|k: int| 0 <= k < aliases.len() implies all.contains(
            (FuncView { name: scoped(#[trigger] aliases[k], f.name), namespace: aliases[k], ..f }),
        ) by {
            if k > 0 {
                assert(aliases.drop_first()[k - 1] == aliases[k]);
            }
        }
    }
}

proof fn lemma_module_functions(
    funcs: Seq<FuncView>,
    list: Seq<FuncView>,
    ns: Seq<char>,
    aliases: Seq<Seq<char>>,
)
    ensures
        goes_on(funcs, funcs_in(funcs, list, ns, aliases)),
        forall|i: int, k: int|
            0 <= i < list.len() && 0 <= k < aliases.len() ==> funcs_in(
                funcs,
                list,
                ns,
                aliases,
            ).contains(
                (FuncView {
                    name: scoped(#[trigger] aliases[k], (#[trigger] list[i]).name),
                    namespace: aliases[k],
                    ..list[i]
                }),
            ),
    decreases list.len(),
{
    if list.len() == 0 {
        assert(funcs.take(funcs.len() as int) =~= funcs);
    } else {
        let f = list[0];
        let copies = func_aliases(funcs, f, aliases);
        let canon = scoped(ns, f.name);
        let all = if func_place(copies, canon) < copies.len() {
            copies
        } else {
            copies.push(FuncView { name: canon, namespace: ns, ..f })
        };
        let end = funcs_in(funcs, list, ns, aliases);
        lemma_copied_functions(funcs, f, aliases);
        assert(all.take(copies.len() as int) =~= copies);
        lemma_goes_on(funcs, copies, all);
        lemma_module_functions(all, list.drop_first(), ns, aliases);
        lemma_goes_on(funcs, all, end);
        assert forall|i: int, k: int|
            0 <= i < list.len() && 0 <= k < aliases.len() implies end.contains(
            (FuncView {
                name: scoped(#[trigger] aliases[k], (#[trigger] list[i]).name),
                namespace: aliases[k],
                ..list[i]
            }),
        ) by {
            if i > 0 {
                assert(list.drop_first()[i - 1] == list[i]);
            } else {
                let g = FuncView { name: scoped(aliases[k], f.name), namespace: aliases[k], ..f };
                lemma_kept_function(copies, all, g);
                lemma_kept_function(all, end, g);
            }
        }
    }
}

/// A function as it can be called under an alias of its module.
pub open spec fn function_as(m: ModuleView, i: int, k: int) -> FuncView {
    FuncView {
        name: scoped(m.aliases[k], m.parsed.funcs[i].name),
        namespace: m.aliases[k],
        ..m.parsed.funcs[i]
    }
}

proof fn lemma_merged_functions(s: MergeView, list: Seq<ModuleView>, first: bool)
    requires
        modules_in(s, list, first) is Ok,
    ensures
        ({
            let q = modules_in(s, list, first)->Ok_0.program;
            &&& goes_on(s.program.funcs, q.funcs)
            &&& forall|m: int, i: int, k: int|
                0 <= m < list.len() && 0 <= i < list[m].parsed.funcs.len() && 0 <= k
                    < list[m].aliases.len() ==> q.funcs.contains(
                    #[trigger] function_as(list[m], i, k),
                )
        }),
    decreases list.len(),
{
    if list.len() == 0 {
        assert(s.program.funcs.take(s.program.funcs.len() as int) =~= s.program.funcs);
    } else {
        let m0 = list[0];
        lemma_module_adds(s, m0, first);
        let t = module_in(s, m0, first)->Ok_0;
        let q = modules_in(s, list, first)->Ok_0.program;
        lemma_module_functions(s.program.funcs, m0.parsed.funcs, m0.ns, m0.aliases);
        lemma_merged_functions(t, list.drop_first(), false);
        lemma_goes_on(s.program.funcs, t.program.funcs, q.funcs);
        assert forall|m: int, i: int, k: int|
            0 <= m < list.len() && 0 <= i < list[m].parsed.funcs.len() && 0 <= k
                < list[m].aliases.len() implies q.funcs.contains(
            #[trigger] function_as(list[m], i, k),
        ) by {
            if m > 0 {
                assert(list.drop_first()[m - 1] == list[m]);
            } else {
                assert(m0.aliases[k] == m0.aliases[k] && m0.parsed.funcs[i] == m0.parsed.funcs[i]);
                lemma_kept_function(t.program.funcs, q.funcs, function_as(m0, i, k));
            }
        }
    }
}

proof fn lemma_place_kept(a: Seq<FuncView>, b: Seq<FuncView>, name: Seq<char>)
    requires
        goes_on(a, b),
        func_place(a, name) < a.len(),
    ensures
        func_place(b, name) == func_place(a, name),
    decreases a.len(),
{
    assert(b.take(a.len() as int)[0] == b[0]);
    if a[0].name != name {
        let rest = b.drop_first();
        assert(rest.take(a.len() - 1) =~= b.take(a.len() as int).drop_first());
        lemma_place_kept(a.drop_first(), rest, name);
    }
}

proof fn lemma_place(funcs: Seq<FuncView>, name: Seq<char>)
    ensures
        func_place(funcs, name) <= funcs.len(),
        func_place(funcs, name) < funcs.len() ==> funcs[func_place(funcs, name) as int].name
            == name,
        forall|i: int|
            0 <= i < func_place(funcs, name) ==> (#[trigger] funcs[i]).name != name,
    decreases funcs.len(),
{
    if funcs.len() > 0 && funcs[0].name != name {
        lemma_place(funcs.drop_first(), name);
        assert forall|i: int| 0 <= i < func_place(funcs, name) implies (
        #[trigger] funcs[i]).name != name by {
            if i > 0 {
                assert(funcs.drop_first()[i - 1] == funcs[i]);
            }
        }
    }
}

proof fn lemma_names_differ(funcs: Seq<FuncView>, from: nat, i: int)
    requires
        repeated_from(funcs, from) is None,
        from <= i < funcs.len(),
    ensures
        func_place(funcs, funcs[i].name) == i,
    decreases funcs.len() - from,
{
    if from < i {
        lemma_names_differ(funcs, from + 1, i);
    } else {
        lemma_place(funcs, funcs[i].name);
    }
}

proof fn lemma_bare_functions(p: ProgramView, list: Seq<(Seq<char>, Seq<char>)>)
    ensures
        goes_on(p.funcs, bare_in(p, list).funcs),
    decreases list.len(),
{
    if list.len() == 0 {
        assert(p.funcs.take(p.funcs.len() as int) =~= p.funcs);
    } else {
        reveal_with_fuel(bare_in, 2);
        assert(seq![list[0]].drop_first() =~= Seq::<(Seq<char>, Seq<char>)>::empty());
        let q = bare_in(p, seq![list[0]]);
        lemma_bare_first(p, list);
        assert(q.funcs.take(p.funcs.len() as int) =~= p.funcs);
        lemma_bare_functions(q, list.drop_first());
        lemma_goes_on(p.funcs, q.funcs, bare_in(p, list).funcs);
    }
}

proof fn lemma_bare_function(
    p: ProgramView,
    list: Seq<(Seq<char>, Seq<char>)>,
    i: int,
    at: int,
)
    requires
        0 <= i < list.len(),
        0 <= at < p.funcs.len(),
        func_place(p.funcs, list[i].1) == at,
        forall|j: int| 0 <= j < p.funcs.len() ==> (#[trigger] p.funcs[j]).name != list[i].0,
        forall|j: int| 0 <= j < i ==> (#[trigger] list[j]).0 != list[i].0,
    ensures
        bare_in(p, list).funcs.contains((FuncView { name: list[i].0, ..p.funcs[at] })),
    decreases list.len(),
{
    reveal_with_fuel(bare_in, 2);
    assert(seq![list[0]].drop_first() =~= Seq::<(Seq<char>, Seq<char>)>::empty());
    let q = bare_in(p, seq![list[0]]);
    let rest = list.drop_first();
    lemma_bare_first(p, list);
    assert(q.funcs.take(p.funcs.len() as int) =~= p.funcs);
    if i == 0 {
        let g = FuncView { name: list[0].0, ..p.funcs[at] };
        lemma_place(p.funcs, list[0].0);
        assert(q.funcs[p.funcs.len() as int] == g);
        lemma_bare_functions(q, rest);
        lemma_kept_function(q.funcs, bare_in(q, rest).funcs, g);
    } else {
        lemma_place_kept(p.funcs, q.funcs, list[i].1);
        assert(rest[i - 1] == list[i]);
        assert(q.funcs[at] == p.funcs[at]);
        assert(list[0].0 != list[i].0);
        assert forall|j: int| 0 <= j < q.funcs.len() implies (#[trigger] q.funcs[j]).name
            != list[i].0 by {
            if j < p.funcs.len() {
                assert(q.funcs[j] == p.funcs[j]);
            }
        }
        assert forall|j: int| 0 <= j < i - 1 implies (#[trigger] rest[j]).0 != rest[i - 1].0 by {
            assert(rest[j] == list[j + 1]);
        }
        lemma_bare_function(q, rest, i - 1, at);
    }
}

/// An imported function can be called under every alias of its module, with the
/// parameters, the locals and the result that it was declared with.
pub proof fn law_module_function_is_bound(
    modules: Seq<ModuleView>,
    aliases: Seq<(Seq<char>, Seq<char>)>,
    m: int,
    i: int,
    k: int,
)
    requires
        merged(modules, aliases) is Ok,
        0 <= m < modules.len(),
        0 <= i < modules[m].parsed.funcs.len(),
        0 <= k < modules[m].aliases.len(),
    ensures
        ({
            let f = modules[m].parsed.funcs[i];
            let space = modules[m].aliases[k];
            merged(modules, aliases)->Ok_0.funcs.contains(
                (FuncView { name: scoped(space, f.name), namespace: space, ..f }),
            )
        }),
{
    let s = modules_in(empty_merge(), modules, true)->Ok_0;
    lemma_merged_functions(empty_merge(), modules, true);
    assert(s.program.funcs.contains(function_as(modules[m], i, k)));
    lemma_bare_functions(s.program, aliases);
    lemma_kept_function(
        s.program.funcs,
        merged(modules, aliases)->Ok_0.funcs,
        function_as(modules[m], i, k),
    );
}

/// A `from` import of a function binds its bare name to it: to the same parameters, locals
/// and result, in the function's own namespace. This is of names that are bound only once.
pub proof fn law_from_import_binds_function(
    modules: Seq<ModuleView>,
    aliases: Seq<(Seq<char>, Seq<char>)>,
    i: int,
    g: FuncView,
)
    requires
        merged(modules, aliases) is Ok,
        merged(modules, Seq::empty()) matches Ok(p) && p.funcs.contains(g) && forall|j: int|
            0 <= j < p.funcs.len() ==> (#[trigger] p.funcs[j]).name != aliases[i].0,
        0 <= i < aliases.len(),
        aliases[i].1 == g.name,
        forall|j: int| 0 <= j < i ==> (#[trigger] aliases[j]).0 != aliases[i].0,
    ensures
        merged(modules, aliases)->Ok_0.funcs.contains((FuncView { name: aliases[i].0, ..g })),
{
    let s = modules_in(empty_merge(), modules, true)->Ok_0;
    let p = merged(modules, Seq::empty())->Ok_0;
    assert(p == s.program);
    let at = choose|at: int| 0 <= at < p.funcs.len() && p.funcs[at] == g;
    lemma_names_differ(p.funcs, 0, at);
    lemma_bare_function(p, aliases, i, at);
}

proof fn lemma_aliases_heading(
    model: ModelView,
    name: Seq<char>,
    value: u64,
    canon: Seq<char>,
    aliases: Seq<Seq<char>>,
)
    ensures
        ({
            let done = param_aliases(model, name, value, canon, aliases);
            done.gravity == model.gravity && done.title == model.title
        }),
    decreases aliases.len(),
{
    if aliases.len() > 0 {
        lemma_aliases_heading(
            param_as(model, scoped(aliases[0], name), value, canon),
            name,
            value,
            canon,
            aliases.drop_first(),
        );
    }
}

proof fn lemma_params_heading(
    model: ModelView,
    params: Seq<(Seq<char>, u64)>,
    ns: Seq<char>,
    aliases: Seq<Seq<char>>,
)
    ensures
        ({
            let done = params_in(model, params, ns, aliases);
            done.gravity == model.gravity && done.title == model.title
        }),
    decreases params.len(),
{
    if params.len() > 0 {
        let (name, value) = params[0];
        let canon = scoped(ns, name);
        lemma_aliases_heading(model, name, value, canon, aliases);
        let next = param_as(
            param_aliases(model, name, value, canon, aliases),
            canon,
            value,
            canon,
        );
        lemma_params_heading(next, params.drop_first(), ns, aliases);
    }
}

proof fn lemma_module_heading(s: MergeView, m: ModuleView, first: bool)
    requires
        module_in(s, m, first) is Ok,
    ensures
        ({
            let p = s.program.model;
            let q = module_in(s, m, first)->Ok_0.program.model;
            &&& q.gravity == (if first {
                m.parsed.model.gravity
            } else {
                p.gravity
            })
            &&& q.title == (if p.title is Some {
                p.title
            } else {
                m.parsed.model.title
            })
        }),
{
    let model = ModelView {
        gravity: if first {
            m.parsed.model.gravity
        } else {
            s.program.model.gravity
        },
        title: if s.program.model.title is None {
            m.parsed.model.title
        } else {
            s.program.model.title
        },
        ..s.program.model
    };
    let s0 = with_model(s, model);
    lemma_entities_flat(s0, m.parsed.model.entities, m.path);
    let s1 = entities_in(s0, m.parsed.model.entities, m.path)->Ok_0;
    lemma_pools_flat(s1, m.parsed.model.pools, m.path);
    let s2 = pools_in(s1, m.parsed.model.pools, m.path)->Ok_0;
    let shaped = ModelView {
        shapes: shapes_in(s2.program.model.shapes, m.parsed.model.shapes),
        ..s2.program.model
    };
    let s3 = with_model(s2, shaped);
    lemma_channels_flat(s3, m.parsed.model.channels);
    let s4 = channels_in(s3, m.parsed.model.channels)->Ok_0;
    lemma_fields_flat(s4, m.parsed.model.fields);
    let s5 = fields_in(s4, m.parsed.model.fields)->Ok_0;
    lemma_params_heading(s5.program.model, m.parsed.model.params, m.ns, m.aliases);
}

proof fn lemma_later_headings(s: MergeView, list: Seq<ModuleView>)
    requires
        modules_in(s, list, false) is Ok,
    ensures
        ({
            let p = s.program.model;
            let q = modules_in(s, list, false)->Ok_0.program.model;
            &&& q.gravity == p.gravity
            &&& p.title is Some ==> q.title == p.title
            &&& p.title is None ==> first_title(list, q.title)
        }),
    decreases list.len(),
{
    if list.len() > 0 {
        let m = list[0];
        lemma_module_heading(s, m, false);
        let t = module_in(s, m, false)->Ok_0;
        let rest = list.drop_first();
        lemma_later_headings(t, rest);
        let title = modules_in(s, list, false)->Ok_0.program.model.title;
        if s.program.model.title is None {
            lemma_first_title(list, title);
        }
    }
}

/// Whether a title is the first that one of some modules has.
pub open spec fn first_title(modules: Seq<ModuleView>, title: Option<Seq<char>>) -> bool {
    match title {
        Some(_) => exists|k: int|
            0 <= k < modules.len() && (#[trigger] modules[k]).parsed.model.title == title
                && forall|j: int|
                0 <= j < k ==> (#[trigger] modules[j]).parsed.model.title is None,
        None => forall|k: int|
            0 <= k < modules.len() ==> (#[trigger] modules[k]).parsed.model.title is None,
    }
}

proof fn lemma_first_title(modules: Seq<ModuleView>, title: Option<Seq<char>>)
    requires
        modules.len() > 0,
        match modules[0].parsed.model.title {
            Some(_) => title == modules[0].parsed.model.title,
            None => first_title(modules.drop_first(), title),
        },
    ensures
        first_title(modules, title),
{
    let rest = modules.drop_first();
    if modules[0].parsed.model.title is Some {
        assert(modules[0].parsed.model.title == title);
    } else {
        match title {
            Some(_) => {
                let k = choose|k: int|
                    0 <= k < rest.len() && (#[trigger] rest[k]).parsed.model.title == title
                        && forall|j: int|
                        0 <= j < k ==> (#[trigger] rest[j]).parsed.model.title is None;
                assert(modules[k + 1] == rest[k]);
                assert forall|j: int| 0 <= j < k + 1 implies (
                #[trigger] modules[j]).parsed.model.title is None by {
                    if j > 0 {
                        assert(rest[j - 1] == modules[j]);
                    }
                }
            },
            None => {
                assert forall|k: int| 0 <= k < modules.len() implies (
                #[trigger] modules[k]).parsed.model.title is None by {
                    if k > 0 {
                        assert(rest[k - 1] == modules[k]);
                    }
                }
            },
        }
    }
}

proof fn lemma_bare_heading(p: ProgramView, list: Seq<(Seq<char>, Seq<char>)>)
    ensures
        bare_in(p, list).model.gravity == p.model.gravity,
        bare_in(p, list).model.title == p.model.title,
    decreases list.len(),
{
    if list.len() > 0 {
        lemma_bare_first(p, list);
        reveal_with_fuel(bare_in, 2);
        assert(seq![list[0]].drop_first() =~= Seq::<(Seq<char>, Seq<char>)>::empty());
        lemma_bare_heading(bare_in(p, seq![list[0]]), list.drop_first());
    }
}

/// The first module, the one that a program starts from, sets the gravity of the world;
/// the title is the first that a module has.
pub proof fn law_first_module_sets_gravity(
    modules: Seq<ModuleView>,
    aliases: Seq<(Seq<char>, Seq<char>)>,
)
    requires
        merged(modules, aliases) is Ok,
        modules.len() > 0,
    ensures
        merged(modules, aliases)->Ok_0.model.gravity == modules[0].parsed.model.gravity,
        first_title(modules, merged(modules, aliases)->Ok_0.model.title),
{
    let start = empty_merge();
    let s = modules_in(start, modules, true)->Ok_0;
    lemma_module_heading(start, modules[0], true);
    let t = module_in(start, modules[0], true)->Ok_0;
    lemma_later_headings(t, modules.drop_first());
    lemma_bare_heading(s.program, aliases);
    assert(start.program.model.title is None);
    lemma_first_title(modules, s.program.model.title);
}

} // verus!
