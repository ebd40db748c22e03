//! Compiled programs run step by step. A run of the module itself happens outside;
//! here is what a step makes of its outcome.

use crate::api::{error, spec_error, EntityId, Error, RegionId, Status};
use crate::bytes::{
    base, head, law_value_of_bytes, le_bytes, le_value, value_from_bytes, value_into_bytes,
};
use crate::compile::{compile, compiled, lemma_pool_base, pool_base, CompiledProgram, CompiledView};
use crate::decl::{
    copy_texts, system_decl_views, text_views, ModelView, SystemDecl, SystemDeclView, WorldModel,
};
use crate::diagnostics::{noted, DiagView, Diagnostics};
use crate::double::{below, is_undefined, less_than, undefined};
use crate::eir::{Component, ComponentView, EirModule, EirModuleView, WorldWrite, HALF};
use crate::fault::{Fault, FaultView};
use crate::names::{assoc_get, assoc_insert, assoc_set, same, NameMap, ViewMap};
use crate::numbers::Numbers;
use crate::program::PhysicsProgram;
use crate::scene::{
    apply_writes, same_component, scene_after, slot_or_zero, write_views, BodyState, BodyView,
    GridView, Scene, SceneView, WriteView,
};
use crate::setup::built;
use crate::systems::{pool_slot_name, slot_name};
use crate::table::{get_at, law_set_then_get, set_at};
use crate::text::{dec_text, joined};
use vstd::prelude::*;
use vstd::string::*;

verus! {

/// Bits of one sixtieth, the step length where no rule gives one.
pub const SIXTIETH: u64 = 0x3F91_1111_1111_1111;

/// The step length: that of the first update system.
pub open spec fn step_length(systems: Seq<SystemDeclView>) -> u64
    decreases systems.len(),
{
    if systems.len() == 0 {
        SIXTIETH
    } else if systems[0].kind == "update"@ {
        match assoc_get(systems[0].params, "dt"@) {
            Some(dt) => dt,
            None => SIXTIETH,
        }
    } else {
        step_length(systems.drop_first())
    }
}

fn read_step(systems: &Vec<SystemDecl>) -> (r: u64)
    ensures
        r == step_length(system_decl_views(systems@)),
{
    let ghost views = system_decl_views(systems@);
    let mut i: usize = 0;
    proof {
        assert(views.skip(0) =~= views);
    }
    while i < systems.len()
        invariant
            i <= systems.len(),
            views == system_decl_views(systems@),
            step_length(views) == step_length(views.skip(i as int)),
        decreases systems.len() - i,
    {
        proof {
            assert(views.skip(i as int)[0] == systems@[i as int]@);
            assert(views.skip(i as int).drop_first() =~= views.skip(i + 1));
        }
        if same(&systems[i].kind, "update") {
            return match systems[i].params.get("dt") {
                Some(dt) => *dt,
                None => SIXTIETH,
            };
        }
        i = i + 1;
    }
    SIXTIETH
}

/// The ids of the channels, which follow those of the entities.
pub open spec fn chan_ids(model: ModelView) -> Seq<u128> {
    Seq::new(model.channels.len(), |i: int| (model.entities.len() + i + 1) as u128)
}

fn read_channels(model: &WorldModel) -> (r: Vec<u128>)
    ensures
        r@ == chan_ids(model@),
{
    let bodies: u128 = model.entities.len() as u128;
    let mut ids: Vec<u128> = Vec::new();
    let mut i: usize = 0;
    while i < model.channels.len()
        invariant
            i <= model.channels.len(),
            bodies == model@.entities.len(),
            bodies <= u64::MAX,
            ids@.len() == i,
            forall|k: int| 0 <= k < i ==> #[trigger] ids@[k] == bodies + k + 1,
        decreases model.channels.len() - i,
    {
        ids.push(bodies + (i as u128) + 1);
        i = i + 1;
    }
    proof {
        assert(ids@ =~= chan_ids(model@));
    }
    ids
}

/// Names with those of the first `k` slots of a pool, by their ids.
pub open spec fn with_slot_names(
    names: Seq<(u128, Seq<char>)>,
    pool: Seq<char>,
    base: nat,
    k: nat,
) -> Seq<(u128, Seq<char>)>
    decreases k,
{
    if k == 0 {
        names
    } else {
        with_slot_names(names, pool, base, (k - 1) as nat).push(
            ((base + k - 1) as u128, slot_name(pool, (k - 1) as nat)),
        )
    }
}

/// The names of the entities, the channels and the slots of the first `p` pools, by
/// their ids in increasing order.
pub open spec fn names_by_id(model: ModelView, p: nat) -> Seq<(u128, Seq<char>)>
    decreases p,
{
    if p == 0 || p > model.pools.len() {
        Seq::new(model.entities.len(), |i: int| ((i + 1) as u128, model.entities[i].name))
            + Seq::new(
            model.channels.len(),
            |i: int| ((model.entities.len() + i + 1) as u128, model.channels[i].0),
        )
    } else {
        with_slot_names(
            names_by_id(model, (p - 1) as nat),
            model.pools[p - 1].name,
            pool_base(model, (p - 1) as nat),
            model.pools[p - 1].count as nat,
        )
    }
}

/// The values of a list of names by id.
pub open spec fn named_views(s: Seq<(u128, String)>) -> Seq<(u128, Seq<char>)> {
    s.map_values(|e: (u128, String)| (e.0, e.1@))
}

fn add_slot_names(names: &mut Vec<(u128, String)>, pool: &str, base: u128, count: u32)
    requires
        base + count <= u128::MAX,
    ensures
        named_views(final(names)@) == with_slot_names(
            named_views(old(names)@),
            pool@,
            base as nat,
            count as nat,
        ),
{
    let ghost start = named_views(names@);
    let mut k: u32 = 0;
    while k < count
        invariant
            k <= count,
            base + count <= u128::MAX,
            named_views(names@) == with_slot_names(start, pool@, base as nat, k as nat),
        decreases count - k,
    {
        let ghost before = named_views(names@);
        names.push((base + k as u128, pool_slot_name(pool, k as u64)));
        proof {
            assert(named_views(names@) =~= before.push(
                ((base + k) as u128, slot_name(pool@, k as nat)),
            ));
        }
        k = k + 1;
    }
}

fn read_names(model: &WorldModel) -> (r: Vec<(u128, String)>)
    ensures
        named_views(r@) == names_by_id(model@, model@.pools.len()),
{
    let ghost mv = model@;
    let bodies: u128 = model.entities.len() as u128;
    let mut names: Vec<(u128, String)> = Vec::new();
    let ghost first = Seq::new(
        mv.entities.len(),
        |i: int| ((i + 1) as u128, mv.entities[i].name),
    );
    let ghost second = Seq::new(
        mv.channels.len(),
        |i: int| ((mv.entities.len() + i + 1) as u128, mv.channels[i].0),
    );
    let mut i: usize = 0;
    proof {
        assert(named_views(names@) =~= first.take(0));
    }
    while i < model.entities.len()
        invariant
            i <= model.entities.len(),
            mv == model@,
            first == Seq::new(
                mv.entities.len(),
                |i: int| ((i + 1) as u128, mv.entities[i].name),
            ),
            named_views(names@) == first.take(i as int),
        decreases model.entities.len() - i,
    {
        let ghost before = named_views(names@);
        names.push(((i as u128) + 1, model.entities[i].name.clone()));
        proof {
            assert(first[i as int] == ((i + 1) as u128, model.entities@[i as int].name@));
            assert(named_views(names@) =~= before.push(first[i as int]));
            assert(named_views(names@) =~= first.take(i + 1));
        }
        i = i + 1;
    }
    let mut c: usize = 0;
    proof {
        assert(first.take(i as int) =~= first);
        assert(named_views(names@) =~= first + second.take(0));
    }
    while c < model.channels.len()
        invariant
            c <= model.channels.len(),
            mv == model@,
            bodies == mv.entities.len(),
            bodies <= u64::MAX,
            second == Seq::new(
                mv.channels.len(),
                |i: int| ((mv.entities.len() + i + 1) as u128, mv.channels[i].0),
            ),
            named_views(names@) == first + second.take(c as int),
        decreases model.channels.len() - c,
    {
        let ghost before = named_views(names@);
        names.push((bodies + (c as u128) + 1, model.channels[c].name.clone()));
        proof {
            assert(second[c as int] == (
                (bodies + c + 1) as u128,
                model.channels@[c as int].name@,
            ));
            assert(named_views(names@) =~= before.push(second[c as int]));
            assert(named_views(names@) =~= first + second.take(c + 1));
        }
        c = c + 1;
    }
    proof {
        assert(second.take(c as int) =~= second);
    }
    let mut base: u128 = bodies + (model.channels.len() as u128) + 1;
    let mut p: usize = 0;
    while p < model.pools.len()
        invariant
            p <= model.pools.len(),
            mv == model@,
            mv.entities.len() <= u64::MAX,
            mv.channels.len() <= u64::MAX,
            base == pool_base(mv, p as nat),
            named_views(names@) == names_by_id(mv, p as nat),
        decreases model.pools.len() - p,
    {
        proof {
            assert(mv.pools[p as int] == model.pools@[p as int]@);
            lemma_pool_base(mv, p as nat);
        }
        add_slot_names(&mut names, &model.pools[p].name, base, model.pools[p].count);
        base = base + model.pools[p].count as u128;
        p = p + 1;
    }
    names
}

/// The fields of the step before, among the first `k` systems: buffers of the wave
/// solvers, not quantities of the world.
pub open spec fn buffers(systems: Seq<SystemDeclView>, k: nat) -> Seq<(Seq<char>, ())>
    decreases k,
{
    if k == 0 || k > systems.len() {
        Seq::empty()
    } else {
        let found = buffers(systems, (k - 1) as nat);
        let d = systems[k - 1];
        match assoc_get(d.string_params, "prev"@) {
            Some(name) => if d.kind == "wave"@ {
                assoc_insert(found, name, ())
            } else {
                found
            },
            None => found,
        }
    }
}

fn read_buffers(systems: &Vec<SystemDecl>) -> (r: NameMap<()>)
    ensures
        r@ == buffers(system_decl_views(systems@), systems@.len()),
{
    let ghost views = system_decl_views(systems@);
    let mut found: NameMap<()> = NameMap::new();
    let mut i: usize = 0;
    while i < systems.len()
        invariant
            i <= systems.len(),
            views == system_decl_views(systems@),
            found@ == buffers(views, i as nat),
        decreases systems.len() - i,
    {
        proof {
            assert(views[i as int] == systems@[i as int]@);
        }
        if same(&systems[i].kind, "wave") {
            if let Some(name) = systems[i].string_params.get("prev") {
                found.insert(name.clone(), ());
            }
        }
        i = i + 1;
    }
    found
}

/// The texts of the invariants among the first `k` systems, in order.
pub open spec fn invariant_texts(systems: Seq<SystemDeclView>, k: nat) -> Seq<Seq<char>>
    decreases k,
{
    if k == 0 || k > systems.len() {
        Seq::empty()
    } else {
        let found = invariant_texts(systems, (k - 1) as nat);
        let d = systems[k - 1];
        match assoc_get(d.update, "expr"@) {
            Some(text) => if d.kind == "invariant"@ {
                found.push(text)
            } else {
                found
            },
            None => found,
        }
    }
}

fn read_invariants(systems: &Vec<SystemDecl>) -> (r: Vec<String>)
    ensures
        text_views(r@) == invariant_texts(system_decl_views(systems@), systems@.len()),
{
    let ghost views = system_decl_views(systems@);
    let mut found: Vec<String> = Vec::new();
    proof {
        assert(text_views(found@) =~= Seq::<Seq<char>>::empty());
    }
    let mut i: usize = 0;
    while i < systems.len()
        invariant
            i <= systems.len(),
            views == system_decl_views(systems@),
            text_views(found@) == invariant_texts(views, i as nat),
        decreases systems.len() - i,
    {
        let ghost before = text_views(found@);
        proof {
            assert(views[i as int] == systems@[i as int]@);
        }
        if same(&systems[i].kind, "invariant") {
            if let Some(text) = systems[i].update.get("expr") {
                found.push(text.clone());
                proof {
                    assert(text_views(found@) =~= before.push(text@));
                }
            }
        }
        i = i + 1;
    }
    found
}

/// An event that a program emitted.
#[derive(Clone, Copy, PartialEq, Eq, Debug, Structural)]
pub struct EmittedEvent {
    pub kind: u64,
    /// Bits of the value that it carries.
    pub payload: u64,
}

/// An event that a program put off.
#[derive(Clone, Copy, PartialEq, Eq, Debug, Structural)]
pub struct QueuedEvent {
    /// Bits of the time at which it is due.
    pub due: u64,
    pub kind: u64,
    /// Bits of the value that it carries.
    pub payload: u64,
}

/// The context of a run.
pub struct ExecEnv {
    /// Bits of the time at which the step begins.
    pub time: u64,
    /// Steps taken before.
    pub step: u64,
    /// Bits of the seconds per step.
    pub step_dt: u64,
    /// State of the random stream; zero before anything is drawn from it.
    pub random: u64,
    /// The events of the step.
    pub events: Vec<EmittedEvent>,
    /// The events that are still to come.
    pub queue: Vec<QueuedEvent>,
    /// The values that the program has printed.
    pub log: Vec<String>,
}

/// The mathematical value of an [`ExecEnv`].
pub struct EnvView {
    pub time: u64,
    pub step: u64,
    pub step_dt: u64,
    pub random: u64,
    pub events: Seq<EmittedEvent>,
    pub queue: Seq<QueuedEvent>,
    pub log: Seq<Seq<char>>,
}

impl View for ExecEnv {
    type V = EnvView;

    open spec fn view(&self) -> EnvView {
        EnvView {
            time: self.time,
            step: self.step,
            step_dt: self.step_dt,
            random: self.random,
            events: self.events@,
            queue: self.queue@,
            log: text_views(self.log@),
        }
    }
}

/// The context before any run.
pub open spec fn fresh_env() -> EnvView {
    EnvView {
        time: 0,
        step: 0,
        step_dt: 0,
        random: 0,
        events: Seq::empty(),
        queue: Seq::empty(),
        log: Seq::empty(),
    }
}

impl ExecEnv {
    /// The context before any run.
    pub fn new() -> (r: ExecEnv)
        ensures
            r@ == fresh_env(),
    {
        let log: Vec<String> = Vec::new();
        proof {
            assert(text_views(log@) =~= Seq::<Seq<char>>::empty());
        }
        ExecEnv {
            time: 0,
            step: 0,
            step_dt: 0,
            random: 0,
            events: Vec::new(),
            queue: Vec::new(),
            log,
        }
    }
}

/// A message on its way to a channel of a region.
#[derive(Clone, Debug)]
pub struct ChannelMessage {
    pub region: RegionId,
    /// The entity that is the channel.
    pub channel: u128,
    pub bytes: Vec<u8>,
}

/// The mathematical value of a [`ChannelMessage`].
pub struct MessageView {
    pub region: RegionId,
    pub channel: u128,
    pub bytes: Seq<u8>,
}

impl View for ChannelMessage {
    type V = MessageView;

    open spec fn view(&self) -> MessageView {
        MessageView { region: self.region, channel: self.channel, bytes: self.bytes@ }
    }
}

/// The values of a list of messages.
pub open spec fn message_views(s: Seq<ChannelMessage>) -> Seq<MessageView> {
    s.map_values(|m: ChannelMessage| m@)
}

/// A program that runs on a scene.
pub struct LangRuntime {
    pub scene: Scene,
    pub program: PhysicsProgram,
    pub module: EirModule,
    /// Steps taken.
    pub clock: u64,
    /// Bits of the seconds per step.
    pub sim_dt: u64,
    pub region: RegionId,
    /// The entities that are channels.
    pub channel_ids: Vec<u128>,
    /// The names to show, by id.
    pub entity_names: Vec<(u128, String)>,
    /// Fields that are not shown.
    pub hidden_fields: NameMap<()>,
    /// The region that channel values are sent to as well.
    pub peer_region: Option<RegionId>,
    /// What the last finished step has published.
    pub outbox: Vec<ChannelMessage>,
    /// The texts of the invariants, in the order of their verdict fields.
    pub invariant_exprs: Vec<String>,
    /// What the runs so far have left behind beside the scene.
    pub env: ExecEnv,
}

/// The mathematical value of a [`LangRuntime`].
pub struct LangView {
    pub scene: SceneView,
    pub module: EirModuleView,
    pub clock: u64,
    pub sim_dt: u64,
    pub region: RegionId,
    pub channel_ids: Seq<u128>,
    pub entity_names: Seq<(u128, Seq<char>)>,
    pub hidden_fields: Seq<(Seq<char>, ())>,
    pub peer_region: Option<RegionId>,
    pub outbox: Seq<MessageView>,
    pub invariant_exprs: Seq<Seq<char>>,
    pub env: EnvView,
}

impl View for LangRuntime {
    type V = LangView;

    open spec fn view(&self) -> LangView {
        LangView {
            scene: self.scene@,
            module: self.module@,
            clock: self.clock,
            sim_dt: self.sim_dt,
            region: self.region,
            channel_ids: self.channel_ids@,
            entity_names: named_views(self.entity_names@),
            hidden_fields: self.hidden_fields@,
            peer_region: self.peer_region,
            outbox: message_views(self.outbox@),
            invariant_exprs: text_views(self.invariant_exprs@),
            env: self.env@,
        }
    }
}

/// A runtime that has taken no step.
pub open spec fn booted(c: CompiledView, scene: SceneView, region: RegionId) -> LangView {
    LangView {
        scene,
        module: c.eir,
        clock: 0,
        sim_dt: step_length(c.parsed.systems),
        region,
        channel_ids: chan_ids(c.parsed.model),
        entity_names: names_by_id(c.parsed.model, c.parsed.model.pools.len()),
        hidden_fields: buffers(c.parsed.systems, c.parsed.systems.len()),
        peer_region: None,
        outbox: Seq::empty(),
        invariant_exprs: invariant_texts(c.parsed.systems, c.parsed.systems.len()),
        env: fresh_env(),
    }
}

/// Whether a write is the verdict of a violated invariant: one half or more.
pub open spec fn violates(w: WriteView) -> bool {
    w.component == ComponentView::Check && !undefined(w.value) && !below(w.value, HALF)
}

/// The fault of a violated invariant.
pub open spec fn violation(w: WriteView, texts: Seq<Seq<char>>) -> FaultView {
    let idx = w.offset / 8;
    let text = if idx < texts.len() {
        texts[idx as int]
    } else {
        "unknown"@
    };
    FaultView {
        error: spec_error(Status::EirInvalid, 69),
        message: Some(
            "invariant '"@ + text + "' violated for entity "@ + dec_text(w.entity as nat),
        ),
    }
}

/// The fault of the first violated invariant among writes.
pub open spec fn first_violation(writes: Seq<WriteView>, texts: Seq<Seq<char>>) -> Option<FaultView>
    decreases writes.len(),
{
    if writes.len() == 0 {
        None
    } else if violates(writes[0]) {
        Some(violation(writes[0], texts))
    } else {
        first_violation(writes.drop_first(), texts)
    }
}

/// A number in decimal.
fn wide_text(n: u128) -> (r: String)
    ensures
        r@ == dec_text(n as nat),
    decreases n,
{
    if n < 10 {
        crate::text::decimal_text(n as u64)
    } else {
        let head: String = wide_text(n / 10);
        let digit: String = crate::text::decimal_text((n % 10) as u64);
        proof {
            reveal_with_fuel(dec_text, 2);
        }
        let r: String = joined(&head, &digit);
        proof {
            assert(r@ =~= dec_text(n as nat));
        }
        r
    }
}

fn violation_fault(w: &WorldWrite, texts: &Vec<String>) -> (r: Fault)
    ensures
        r@ == violation(w@, text_views(texts@)),
{
    let idx: usize = (w.offset / 8) as usize;
    let mut message: String = "invariant '".to_owned();
    if idx < texts.len() {
        proof {
            assert(text_views(texts@)[idx as int] == texts@[idx as int]@);
        }
        message.append(&texts[idx]);
    } else {
        message.append("unknown");
    }
    message.append("' violated for entity ");
    message.append(&wide_text(w.entity));
    Fault { error: error(Status::EirInvalid, 69), message: Some(message) }
}

/// Looks for a violated invariant among the writes of a run.
pub fn check_invariants(writes: &Vec<WorldWrite>, texts: &Vec<String>) -> (r: Option<Fault>)
    ensures
        crate::stmts::fault_view(r) == first_violation(write_views(writes@), text_views(texts@)),
{
    let ghost views = write_views(writes@);
    let mut i: usize = 0;
    proof {
        assert(views.skip(0) =~= views);
    }
    while i < writes.len()
        invariant
            i <= writes.len(),
            views == write_views(writes@),
            first_violation(views, text_views(texts@)) == first_violation(
                views.skip(i as int),
                text_views(texts@),
            ),
        decreases writes.len() - i,
    {
        let w: &WorldWrite = &writes[i];
        proof {
            assert(views.skip(i as int)[0] == w@);
            assert(views.skip(i as int).drop_first() =~= views.skip(i + 1));
        }
        if same_component(&w.component, &Component::Check) && !is_undefined(w.value)
            && !less_than(w.value, HALF) {
            return Some(violation_fault(w, texts));
        }
        i = i + 1;
    }
    None
}

/// Fields with the cells that a run left for them; cells of another number than the
/// field has are not taken.
pub open spec fn fields_after(
    fields: Seq<(Seq<char>, GridView)>,
    overlays: Seq<(Seq<char>, Seq<u64>)>,
) -> Seq<(Seq<char>, GridView)>
    decreases overlays.len(),
{
    if overlays.len() == 0 {
        fields
    } else {
        let (name, cells) = overlays[0];
        let next = match assoc_get(fields, name) {
            Some(g) => if cells.len() == g.cells.len() {
                assoc_set(fields, name, GridView { cells, ..g })
            } else {
                fields
            },
            None => fields,
        };
        fields_after(next, overlays.drop_first())
    }
}

/// Takes over the cells that a run left for the fields of a scene.
pub fn flush_overlays(scene: &mut Scene, overlays: &ViewMap<Vec<u64>>)
    ensures
        final(scene)@ == (SceneView {
            fields: fields_after(old(scene)@.fields, overlays@),
            ..old(scene)@
        }),
{
    let ghost views = overlays@;
    let ghost goal = fields_after(scene@.fields, views);
    let mut i: usize = 0;
    proof {
        assert(views.skip(0) =~= views);
    }
    while i < overlays.entries.len()
        invariant
            i <= overlays.entries.len(),
            views == overlays@,
            goal == fields_after(old(scene)@.fields, views),
            goal == fields_after(scene@.fields, views.skip(i as int)),
            scene@ == (SceneView { fields: scene@.fields, ..old(scene)@ }),
        decreases overlays.entries.len() - i,
    {
        let name: &String = &overlays.entries[i].0;
        let cells: &Vec<u64> = &overlays.entries[i].1;
        proof {
            assert(views.skip(i as int)[0] == (name@, cells@));
            assert(views.skip(i as int).drop_first() =~= views.skip(i + 1));
        }
        if let Some(at) = scene.fields.find(name) {
            if cells.len() == scene.fields.entries[at].1.cells.len() {
                let copy: Vec<u64> = cells.clone();
                let ghost before = scene@.fields;
                proof {
                    assert(copy@ =~= cells@);
                    assert(before[at as int].1 == scene.fields.entries@[at as int].1@);
                }
                scene.fields.entries[at].1.cells = copy;
                proof {
                    assert(scene@.fields =~= before.update(
                        at as int,
                        (name@, GridView { cells: cells@, ..before[at as int].1 }),
                    ));
                }
            }
        }
        i = i + 1;
    }
}

/// The outcome of one run of a module: its writes, the context that it leaves, and
/// the cells that it left for fields.
pub struct RunOutcome {
    pub writes: Vec<WorldWrite>,
    pub env: ExecEnv,
    pub overlays: ViewMap<Vec<u64>>,
}

/// The mathematical value of a [`RunOutcome`].
pub struct OutcomeView {
    pub writes: Seq<WriteView>,
    pub env: EnvView,
    pub overlays: Seq<(Seq<char>, Seq<u64>)>,
}

impl View for RunOutcome {
    type V = OutcomeView;

    open spec fn view(&self) -> OutcomeView {
        OutcomeView {
            writes: write_views(self.writes@),
            env: self.env@,
            overlays: self.overlays@,
        }
    }
}

fn same_words(a: &Vec<u64>, b: &Vec<u64>) -> (r: bool)
    ensures
        r == (a@ == b@),
{
    if a.len() != b.len() {
        return false;
    }
    let mut i: usize = 0;
    while i < a.len()
        invariant
            i <= a.len(),
            a@.len() == b@.len(),
            forall|k: int| 0 <= k < i ==> a@[k] == b@[k],
        decreases a.len() - i,
    {
        if a[i] != b[i] {
            proof {
                assert(a@[i as int] != b@[i as int]);
            }
            return false;
        }
        i = i + 1;
    }
    proof {
        assert(a@ =~= b@);
    }
    true
}

fn same_events(a: &Vec<EmittedEvent>, b: &Vec<EmittedEvent>) -> (r: bool)
    ensures
        r == (a@ == b@),
{
    if a.len() != b.len() {
        return false;
    }
    let mut i: usize = 0;
    while i < a.len()
        invariant
            i <= a.len(),
            a@.len() == b@.len(),
            forall|k: int| 0 <= k < i ==> a@[k] == b@[k],
        decreases a.len() - i,
    {
        if a[i] != b[i] {
            proof {
                assert(a@[i as int] != b@[i as int]);
            }
            return false;
        }
        i = i + 1;
    }
    proof {
        assert(a@ =~= b@);
    }
    true
}

fn same_queue(a: &Vec<QueuedEvent>, b: &Vec<QueuedEvent>) -> (r: bool)
    ensures
        r == (a@ == b@),
{
    if a.len() != b.len() {
        return false;
    }
    let mut i: usize = 0;
    while i < a.len()
        invariant
            i <= a.len(),
            a@.len() == b@.len(),
            forall|k: int| 0 <= k < i ==> a@[k] == b@[k],
        decreases a.len() - i,
    {
        if a[i] != b[i] {
            proof {
                assert(a@[i as int] != b@[i as int]);
            }
            return false;
        }
        i = i + 1;
    }
    proof {
        assert(a@ =~= b@);
    }
    true
}

fn same_writes(a: &Vec<WorldWrite>, b: &Vec<WorldWrite>) -> (r: bool)
    ensures
        r == (write_views(a@) == write_views(b@)),
{
    if a.len() != b.len() {
        proof {
            assert(write_views(a@).len() != write_views(b@).len());
        }
        return false;
    }
    let mut i: usize = 0;
    while i < a.len()
        invariant
            i <= a.len(),
            a@.len() == b@.len(),
            forall|k: int| 0 <= k < i ==> (#[trigger] a@[k])@ == b@[k]@,
        decreases a.len() - i,
    {
        let x: &WorldWrite = &a[i];
        let y: &WorldWrite = &b[i];
        if !(x.entity == y.entity && x.offset == y.offset && x.value == y.value && same_component(
            &x.component,
            &y.component,
        )) {
            proof {
                assert(write_views(a@)[i as int] != write_views(b@)[i as int]);
            }
            return false;
        }
        i = i + 1;
    }
    proof {
        assert(write_views(a@) =~= write_views(b@));
    }
    true
}

fn same_overlays(a: &ViewMap<Vec<u64>>, b: &ViewMap<Vec<u64>>) -> (r: bool)
    ensures
        r == (a@ == b@),
{
    if a.entries.len() != b.entries.len() {
        proof {
            assert(a@.len() != b@.len());
        }
        return false;
    }
    let mut i: usize = 0;
    while i < a.entries.len()
        invariant
            i <= a.entries.len(),
            a.entries@.len() == b.entries@.len(),
            forall|k: int| 0 <= k < i ==> a@[k] == b@[k],
        decreases a.entries.len() - i,
    {
        if !(same(&a.entries[i].0, &b.entries[i].0) && same_words(
            &a.entries[i].1,
            &b.entries[i].1,
        )) {
            proof {
                assert(a@[i as int] != b@[i as int]);
            }
            return false;
        }
        i = i + 1;
    }
    proof {
        assert(a@ =~= b@);
    }
    true
}

/// Whether two runs of one module agree: in their writes, in the events that they
/// emitted and put off, and in the cells of fields.
pub open spec fn agreeing(a: OutcomeView, b: OutcomeView) -> bool {
    &&& a.writes == b.writes
    &&& a.env.events == b.env.events
    &&& a.env.queue == b.env.queue
    &&& a.overlays == b.overlays
}

/// Whether two runs of one module agree.
pub fn agree(a: &RunOutcome, b: &RunOutcome) -> (r: bool)
    ensures
        r == agreeing(a@, b@),
{
    same_writes(&a.writes, &b.writes) && same_events(&a.env.events, &b.env.events) && same_queue(
        &a.env.queue,
        &b.env.queue,
    ) && same_overlays(&a.overlays, &b.overlays)
}

/// The context in which the next step begins: the clocks are those of the runtime, and
/// no event has been emitted yet.
pub open spec fn prepared(r: LangView) -> EnvView {
    EnvView {
        time: r.scene.sim_time,
        step: r.clock,
        step_dt: r.sim_dt,
        events: Seq::empty(),
        ..r.env
    }
}

/// The value of a channel.
pub open spec fn channel_value(s: SceneView, id: u128) -> u64 {
    match get_at(s.entities, EntityId(id)) {
        Some(b) => slot_or_zero(b, 0),
        None => 0,
    }
}

/// What tells a region the value of a channel.
pub open spec fn announcement(s: SceneView, region: RegionId, id: u128) -> MessageView {
    MessageView { region, channel: id, bytes: le_bytes(channel_value(s, id) as nat, 8) }
}

/// What is published for a scene: the value of every channel, to the peer. Without a
/// peer nothing new is.
pub open spec fn published(
    ids: Seq<u128>,
    s: SceneView,
    peer: Option<RegionId>,
    outbox: Seq<MessageView>,
) -> Seq<MessageView> {
    match peer {
        Some(region) => Seq::new(ids.len(), |i: int| announcement(s, region, ids[i])),
        None => outbox,
    }
}

/// The runtime after a run that violates no invariant. What it then publishes are the
/// values after the step.
pub open spec fn settled(r: LangView, o: OutcomeView, next_time: u64) -> (
    LangView,
    Result<(), Error>,
) {
    let (scene, applied) = scene_after(r.scene, o.writes);
    match applied {
        Err(e) => (LangView { scene, env: o.env, ..r }, Err(e)),
        Ok(_) => {
            let after = SceneView {
                fields: fields_after(scene.fields, o.overlays),
                sim_time: next_time,
                ..scene
            };
            (
                LangView {
                    scene: after,
                    clock: (r.clock + 1) as u64,
                    env: o.env,
                    outbox: published(r.channel_ids, after, r.peer_region, r.outbox),
                    ..r
                },
                Ok(()),
            )
        },
    }
}

/// An answer without what it hands over.
pub open spec fn done<T>(r: Result<T, Error>) -> Result<(), Error> {
    match r {
        Ok(_) => Ok(()),
        Err(e) => Err(e),
    }
}

/// The runtime after a step, its answer, and the log. A violated invariant fails the
/// step before any of its writes is applied.
pub open spec fn stepped(r: LangView, o: OutcomeView, next_time: u64, log: Seq<DiagView>) -> (
    LangView,
    Result<(), Error>,
    Seq<DiagView>,
) {
    match first_violation(o.writes, r.invariant_exprs) {
        Some(f) => (LangView { env: o.env, ..r }, Err(f.error), noted(log, f)),
        None => {
            let (after, answer) = settled(r, o, next_time);
            (after, answer, log)
        },
    }
}

/// The runtime after a step that two backends ran. Where they disagree, or where an
/// invariant is violated, the step fails and nothing changes.
pub open spec fn crossed(
    r: LangView,
    a: OutcomeView,
    b: OutcomeView,
    next_time: u64,
    log: Seq<DiagView>,
) -> (LangView, Result<(), Error>, Seq<DiagView>) {
    if !agreeing(a, b) {
        (r, Err(spec_error(Status::EirInvalid, 50)), log)
    } else {
        match first_violation(a.writes, r.invariant_exprs) {
            Some(f) => (r, Err(f.error), noted(log, f)),
            None => {
                let (after, answer) = settled(r, a, next_time);
                (after, answer, log)
            },
        }
    }
}

/// The scene after the bytes of a message for an entity: eight bytes replace its first
/// slot, any other message is dropped, as is one for an entity without slots.
pub open spec fn delivered(s: SceneView, id: u128, message: Seq<u8>) -> SceneView {
    match get_at(s.entities, EntityId(id)) {
        Some(b) => match b.state {
            Some(v) => if message.len() == 8 && v.len() > 0 {
                let value = le_value(message) as u64;
                SceneView {
                    entities: set_at(
                        s.entities,
                        EntityId(id),
                        BodyView { state: Some(v.update(0, value)), ..b },
                    ),
                    ..s
                }
            } else {
                s
            },
            None => s,
        },
        None => s,
    }
}

/// The scene after a message. Only those for a channel of the runtime, in its own
/// region, are taken.
pub open spec fn taken(r: LangView, m: MessageView) -> SceneView {
    if m.region == r.region && r.channel_ids.contains(m.channel) {
        delivered(r.scene, m.channel, m.bytes)
    } else {
        r.scene
    }
}

/// The scene after the first `k` of a list of messages, one after the other.
pub open spec fn ingested(r: LangView, messages: Seq<MessageView>, k: nat) -> SceneView
    decreases k,
{
    if k == 0 || k > messages.len() {
        r.scene
    } else {
        taken(
            LangView { scene: ingested(r, messages, (k - 1) as nat), ..r },
            messages[k - 1],
        )
    }
}

/// The runtime of a compiled program, on the scene of its world.
pub open spec fn started(c: CompiledView, region: RegionId) -> LangView {
    booted(c, built(c.parsed.model), region)
}

impl LangRuntime {
    /// Compiles a source and boots it, in the first region.
    pub fn compile(numbers: &Numbers, source: &str, log: &mut Diagnostics) -> (r: Result<
        LangRuntime,
        Error,
    >)
        ensures
            final(log)@ == compiled(numbers@, source@, old(log)@).log,
            match (r, compiled(numbers@, source@, old(log)@).result) {
                (Ok(rt), Ok(c)) => rt@ == started(c, RegionId(1)),
                (Err(e), Err(f)) => e == f,
                _ => false,
            },
    {
        LangRuntime::compile_in_region(numbers, source, RegionId(1), log)
    }

    /// Compiles a source and boots it in a region, for channels that lead to others.
    pub fn compile_in_region(
        numbers: &Numbers,
        source: &str,
        region: RegionId,
        log: &mut Diagnostics,
    ) -> (r: Result<LangRuntime, Error>)
        ensures
            final(log)@ == compiled(numbers@, source@, old(log)@).log,
            match (r, compiled(numbers@, source@, old(log)@).result) {
                (Ok(rt), Ok(c)) => rt@ == started(c, region),
                (Err(e), Err(f)) => e == f,
                _ => false,
            },
    {
        match compile(numbers, source, log) {
            Ok(c) => {
                let scene: Scene = c.parsed.model.build_scene();
                Ok(LangRuntime::from_compiled_region(c, scene, region))
            },
            Err(e) => Err(e),
        }
    }

    /// Boots a compiled program on a scene.
    pub fn from_compiled_region(compiled: CompiledProgram, scene: Scene, region: RegionId) -> (r:
        LangRuntime)
        ensures
            r@ == booted(compiled@, scene@, region),
            r.program == compiled.program,
    {
        let sim_dt: u64 = read_step(&compiled.parsed.systems);
        let channel_ids: Vec<u128> = read_channels(&compiled.parsed.model);
        let entity_names: Vec<(u128, String)> = read_names(&compiled.parsed.model);
        let hidden_fields: NameMap<()> = read_buffers(&compiled.parsed.systems);
        let invariant_exprs: Vec<String> = read_invariants(&compiled.parsed.systems);
        let outbox: Vec<ChannelMessage> = Vec::new();
        proof {
            assert(message_views(outbox@) =~= Seq::<MessageView>::empty());
        }
        LangRuntime {
            scene,
            program: compiled.program,
            module: compiled.eir,
            clock: 0,
            sim_dt,
            region,
            channel_ids,
            entity_names,
            hidden_fields,
            peer_region: None,
            outbox,
            invariant_exprs,
            env: ExecEnv::new(),
        }
    }

    /// Boots a compiled program on a scene, in the first region.
    pub fn from_compiled(compiled: CompiledProgram, scene: Scene) -> (r: LangRuntime)
        ensures
            r@ == booted(compiled@, scene@, RegionId(1)),
            r.program == compiled.program,
    {
        LangRuntime::from_compiled_region(compiled, scene, RegionId(1))
    }

    /// Names the region that channel values are sent to as well.
    pub fn set_peer(&mut self, peer: RegionId)
        ensures
            final(self)@ == (LangView { peer_region: Some(peer), ..old(self)@ }),
            final(self).program == old(self).program,
    {
        self.peer_region = Some(peer);
    }

    /// The events that the last step emitted, in order.
    pub fn emitted_events(&self) -> (r: &Vec<EmittedEvent>)
        ensures
            r@ == self@.env.events,
    {
        &self.env.events
    }

    /// The values that the program has printed, in order.
    pub fn logs(&self) -> (r: &Vec<String>)
        ensures
            text_views(r@) == self@.env.log,
    {
        &self.env.log
    }

    /// Takes out the values that the program has printed.
    pub fn drain_logs(&mut self) -> (r: Vec<String>)
        ensures
            text_views(r@) == old(self)@.env.log,
            final(self)@ == (LangView {
                env: EnvView { log: Seq::empty(), ..old(self)@.env },
                ..old(self)@
            }),
            final(self).program == old(self).program,
    {
        let mut drained: Vec<String> = Vec::new();
        proof {
            assert(text_views(drained@) =~= Seq::<Seq<char>>::empty());
        }
        std::mem::swap(&mut drained, &mut self.env.log);
        drained
    }

    /// Whether a field is shown: the buffers of wave solvers are not.
    pub fn shows_field(&self, name: &str) -> (r: bool)
        ensures
            r == (assoc_get(self@.hidden_fields, name@) is None),
    {
        self.hidden_fields.get(name).is_none()
    }

    /// Starts over from a scene.
    pub fn reset_to(&mut self, scene: Scene)
        ensures
            final(self)@ == (LangView { scene: scene@, clock: 0, env: fresh_env(), ..old(self)@ }),
            final(self).program == old(self).program,
    {
        self.scene = scene;
        self.clock = 0;
        self.env = ExecEnv::new();
    }

    /// The context in which the next step begins. Events that are due are taken up by
    /// the run.
    pub fn next_env(&self) -> (r: ExecEnv)
        ensures
            r@ == prepared(self@),
    {
        let queue: Vec<QueuedEvent> = self.env.queue.clone();
        proof {
            assert(queue@ =~= self.env.queue@);
        }
        ExecEnv {
            time: self.scene.sim_time,
            step: self.clock,
            step_dt: self.sim_dt,
            random: self.env.random,
            events: Vec::new(),
            queue,
            log: copy_texts(&self.env.log),
        }
    }

    fn publish_channels(&mut self)
        ensures
            final(self)@ == (LangView {
                outbox: published(
                    old(self)@.channel_ids,
                    old(self)@.scene,
                    old(self)@.peer_region,
                    old(self)@.outbox,
                ),
                ..old(self)@
            }),
            final(self).program == old(self).program,
    {
        let peer: RegionId = match self.peer_region {
            Some(peer) => peer,
            None => return ,
        };
        let mut outbox: Vec<ChannelMessage> = Vec::new();
        let mut i: usize = 0;
        while i < self.channel_ids.len()
            invariant
                i <= self.channel_ids.len(),
                outbox.len() == i,
                *self == *old(self),
                forall|k: int|
                    0 <= k < i ==> (#[trigger] outbox@[k])@ == announcement(
                        self@.scene,
                        peer,
                        self@.channel_ids[k],
                    ),
            decreases self.channel_ids.len() - i,
        {
            let id: u128 = self.channel_ids[i];
            let value: u64 = match self.scene.entities.get(&EntityId(id)) {
                Some(b) => first_slot(b),
                None => 0,
            };
            outbox.push(
                ChannelMessage { region: peer, channel: id, bytes: value_into_bytes(value, 8) },
            );
            i = i + 1;
        }
        proof {
            assert(message_views(outbox@) =~= published(
                self@.channel_ids,
                self@.scene,
                Some(peer),
                self@.outbox,
            ));
        }
        self.outbox = outbox;
    }

    fn settle(&mut self, outcome: RunOutcome, next_time: u64) -> (r: Result<
        Vec<WorldWrite>,
        Error,
    >)
        requires
            old(self)@.clock < u64::MAX,
        ensures
            (final(self)@, done(r)) == settled(old(self)@, outcome@, next_time),
            r matches Ok(writes) ==> writes == outcome.writes,
            final(self).program == old(self).program,
    {
        self.env = outcome.env;
        match apply_writes(&mut self.scene, &outcome.writes) {
            Err(e) => return Err(e),
            Ok(_) => {},
        }
        flush_overlays(&mut self.scene, &outcome.overlays);
        self.scene.sim_time = next_time;
        self.clock = self.clock + 1;
        self.publish_channels();
        Ok(outcome.writes)
    }

    /// Ends a step with the outcome of a run, and hands back its writes. `next_time`
    /// holds the bits of the clock after it.
    pub fn finish_step(&mut self, outcome: RunOutcome, next_time: u64, log: &mut Diagnostics) -> (r:
        Result<Vec<WorldWrite>, Error>)
        requires
            old(self)@.clock < u64::MAX,
        ensures
            (final(self)@, done(r), final(log)@) == stepped(
                old(self)@,
                outcome@,
                next_time,
                old(log)@,
            ),
            r matches Ok(writes) ==> writes == outcome.writes,
            final(self).program == old(self).program,
    {
        if let Some(f) = check_invariants(&outcome.writes, &self.invariant_exprs) {
            self.env = outcome.env;
            let e: Error = f.error;
            log.note(f);
            return Err(e);
        }
        self.settle(outcome, next_time)
    }

    /// Ends a step with the outcomes of two backends, which must agree, and hands back
    /// the writes.
    pub fn finish_cross(
        &mut self,
        first: RunOutcome,
        second: &RunOutcome,
        next_time: u64,
        log: &mut Diagnostics,
    ) -> (r: Result<Vec<WorldWrite>, Error>)
        requires
            old(self)@.clock < u64::MAX,
        ensures
            (final(self)@, done(r), final(log)@) == crossed(
                old(self)@,
                first@,
                second@,
                next_time,
                old(log)@,
            ),
            r matches Ok(writes) ==> writes == first.writes,
            final(self).program == old(self).program,
    {
        if !agree(&first, second) {
            return Err(error(Status::EirInvalid, 50));
        }
        if let Some(f) = check_invariants(&first.writes, &self.invariant_exprs) {
            let e: Error = f.error;
            log.note(f);
            return Err(e);
        }
        self.settle(first, next_time)
    }

    /// The messages for other regions: what the last finished step has published.
    pub fn outgoing(&self) -> (r: &Vec<ChannelMessage>)
        ensures
            message_views(r@) == self@.outbox,
    {
        &self.outbox
    }

    /// Takes a message. One for another region, or for an entity that is no channel of
    /// this runtime, is dropped.
    pub fn deliver(&mut self, message: &ChannelMessage)
        ensures
            final(self)@ == (LangView { scene: taken(old(self)@, message@), ..old(self)@ }),
            final(self).program == old(self).program,
    {
        if message.region != self.region || !lists(&self.channel_ids, message.channel) {
            return ;
        }
        if message.bytes.len() != 8 {
            return ;
        }
        let id: u128 = message.channel;
        let value: u64 = value_from_bytes(&message.bytes);
        let at: usize = match self.scene.entities.find(&EntityId(id)) {
            Some(at) => at,
            None => return ,
        };
        let ghost before = self.scene@.entities;
        set_first(&mut self.scene.entities.entries[at].1, value);
        proof {
            let b = before[at as int].1;
            let after = match b.state {
                Some(v) => if v.len() > 0 {
                    BodyView { state: Some(v.update(0, value)), ..b }
                } else {
                    b
                },
                None => b,
            };
            assert(self.scene@.entities =~= before.update(at as int, (EntityId(id), after)));
            assert(before.update(at as int, before[at as int]) =~= before);
        }
    }

    /// Takes messages, one after the other.
    pub fn ingest(&mut self, messages: &Vec<ChannelMessage>)
        ensures
            final(self)@ == (LangView {
                scene: ingested(old(self)@, message_views(messages@), messages@.len()),
                ..old(self)@
            }),
            final(self).program == old(self).program,
    {
        let ghost views = message_views(messages@);
        let mut i: usize = 0;
        while i < messages.len()
            invariant
                i <= messages.len(),
                views == message_views(messages@),
                self@ == (LangView { scene: ingested(old(self)@, views, i as nat), ..old(self)@ }),
                self.program == old(self).program,
            decreases messages.len() - i,
        {
            self.deliver(&messages[i]);
            i = i + 1;
        }
    }

    /// Exchanges messages with another runtime, both ways.
    pub fn exchange(&mut self, peer: &mut LangRuntime)
        ensures
            final(self)@ == (LangView {
                scene: ingested(old(self)@, old(peer)@.outbox, old(peer)@.outbox.len()),
                ..old(self)@
            }),
            final(peer)@ == (LangView {
                scene: ingested(old(peer)@, old(self)@.outbox, old(self)@.outbox.len()),
                ..old(peer)@
            }),
            final(self).program == old(self).program,
            final(peer).program == old(peer).program,
    {
        self.ingest(&peer.outbox);
        peer.ingest(&self.outbox);
    }
}

fn lists(ids: &Vec<u128>, id: u128) -> (r: bool)
    ensures
        r == ids@.contains(id),
{
    let mut i: usize = 0;
    while i < ids.len()
        invariant
            i <= ids.len(),
            forall|k: int| 0 <= k < i ==> ids@[k] != id,
        decreases ids.len() - i,
    {
        if ids[i] == id {
            return true;
        }
        i = i + 1;
    }
    false
}

fn first_slot(b: &BodyState) -> (r: u64)
    ensures
        r == slot_or_zero(b@, 0),
{
    match &b.state {
        Some(v) => if v.len() > 0 {
            v[0]
        } else {
            0
        },
        None => 0,
    }
}

fn set_first(b: &mut BodyState, value: u64)
    ensures
        final(b)@ == (match old(b)@.state {
            Some(v) => if v.len() > 0 {
                BodyView { state: Some(v.update(0, value)), ..old(b)@ }
            } else {
                old(b)@
            },
            None => old(b)@,
        }),
{
    match b.state.take() {
        Some(v) => {
            let mut slots: Vec<u64> = v;
            if slots.len() > 0 {
                slots.set(0, value);
            }
            b.state = Some(slots);
        },
        None => {},
    }
}

/// The steps of a batch of `k` that one backend runs alone: all but the last, which
/// both run.
pub fn plain_steps(k: u32) -> (r: u32)
    ensures
        r == (if k == 0 {
            0
        } else {
            k - 1
        }),
{
    if k == 0 {
        0
    } else {
        k - 1
    }
}

/// A step that fails for a violated invariant, or because two backends disagree,
/// leaves the runtime as it is.
pub proof fn law_refused_step_changes_nothing(
    r: LangView,
    a: OutcomeView,
    b: OutcomeView,
    next_time: u64,
    log: Seq<DiagView>,
)
    requires
        !agreeing(a, b) || first_violation(a.writes, r.invariant_exprs) is Some,
    ensures
        crossed(r, a, b, next_time, log).0 == r,
        crossed(r, a, b, next_time, log).1 is Err,
{
}

/// A step that two backends ran does what one of them alone would do, where they agree
/// and no invariant is violated.
pub proof fn law_agreed_step_is_a_step(
    r: LangView,
    a: OutcomeView,
    b: OutcomeView,
    next_time: u64,
    log: Seq<DiagView>,
)
    requires
        agreeing(a, b),
        first_violation(a.writes, r.invariant_exprs) is None,
    ensures
        crossed(r, a, b, next_time, log) == stepped(r, a, next_time, log),
{
}

/// A step that succeeds takes the clock one further, and the next one begins where it
/// ended.
pub proof fn law_step_advances_clock(
    r: LangView,
    o: OutcomeView,
    next_time: u64,
    log: Seq<DiagView>,
)
    requires
        r.clock < u64::MAX,
        stepped(r, o, next_time, log).1 is Ok,
    ensures
        stepped(r, o, next_time, log).0.clock == r.clock + 1,
        stepped(r, o, next_time, log).0.scene.sim_time == next_time,
        prepared(stepped(r, o, next_time, log).0).step == r.clock + 1,
        prepared(stepped(r, o, next_time, log).0).time == next_time,
        prepared(stepped(r, o, next_time, log).0).queue == o.env.queue,
{
}

/// Nothing goes out before a step is finished: a runtime starts with nothing to send,
/// and a step that fails publishes nothing.
pub proof fn law_only_finished_steps_publish(
    c: CompiledView,
    region: RegionId,
    r: LangView,
    a: OutcomeView,
    b: OutcomeView,
    next_time: u64,
    log: Seq<DiagView>,
)
    ensures
        started(c, region).outbox.len() == 0,
        stepped(r, a, next_time, log).1 is Err ==> stepped(r, a, next_time, log).0.outbox
            == r.outbox,
        crossed(r, a, b, next_time, log).1 is Err ==> crossed(r, a, b, next_time, log).0.outbox
            == r.outbox,
{
}

/// A finished step publishes the values that the channels then have: one message for
/// each channel, to the peer.
pub proof fn law_finished_step_publishes(
    r: LangView,
    o: OutcomeView,
    next_time: u64,
    log: Seq<DiagView>,
    i: int,
)
    requires
        stepped(r, o, next_time, log).1 is Ok,
        r.peer_region is Some,
        0 <= i < r.channel_ids.len(),
    ensures
        stepped(r, o, next_time, log).0.outbox.len() == r.channel_ids.len(),
        stepped(r, o, next_time, log).0.outbox[i] == announcement(
            stepped(r, o, next_time, log).0.scene,
            r.peer_region->0,
            r.channel_ids[i],
        ),
{
}

/// A value that one runtime announces to a region is the value of the channel there,
/// once it is delivered.
pub proof fn law_announced_value_arrives(s: SceneView, id: u128, r: LangView)
    requires
        r.channel_ids.contains(id),
        get_at(r.scene.entities, EntityId(id)) matches Some(b) && b.state matches Some(v)
            && v.len() > 0,
    ensures
        channel_value(taken(r, announcement(s, r.region, id)), id) == channel_value(s, id),
{
    let value = channel_value(s, id);
    let bytes = le_bytes(value as nat, 8);
    reveal_with_fuel(base, 9);
    law_value_of_bytes(value as nat, 8);
    lemma_eight_bytes(value as nat);
    let b = get_at(r.scene.entities, EntityId(id))->0;
    let v = b.state->0;
    law_set_then_get(
        r.scene.entities,
        EntityId(id),
        BodyView { state: Some(v.update(0, le_value(bytes) as u64)), ..b },
        EntityId(id),
    );
}

proof fn lemma_eight_bytes(v: nat)
    ensures
        le_bytes(v, 8).len() == 8,
{
    reveal_with_fuel(le_bytes, 9);
}

proof fn lemma_taken_elsewhere(r: LangView, m: MessageView, id: u128)
    requires
        m.region != r.region || m.channel != id || !r.channel_ids.contains(id),
    ensures
        get_at(taken(r, m).entities, EntityId(id)) == get_at(r.scene.entities, EntityId(id)),
{
    match get_at(r.scene.entities, EntityId(m.channel)) {
        Some(b) => match b.state {
            Some(v) => {
                law_set_then_get(
                    r.scene.entities,
                    EntityId(m.channel),
                    BodyView { state: Some(v.update(0, le_value(m.bytes) as u64)), ..b },
                    EntityId(id),
                );
            },
            None => {},
        },
        None => {},
    }
}

/// Messages change channels only: every other entity, and all else of a scene, stays as
/// it is, and so does a channel that no message of this region is for.
pub proof fn law_messages_change_channels_only(
    r: LangView,
    messages: Seq<MessageView>,
    k: nat,
    id: u128,
)
    requires
        k <= messages.len(),
        !r.channel_ids.contains(id) || forall|i: int|
            0 <= i < k ==> (#[trigger] messages[i]).region != r.region || messages[i].channel != id,
    ensures
        get_at(ingested(r, messages, k).entities, EntityId(id)) == get_at(
            r.scene.entities,
            EntityId(id),
        ),
        ingested(r, messages, k) == (SceneView {
            entities: ingested(r, messages, k).entities,
            ..r.scene
        }),
    decreases k,
{
    if k > 0 {
        law_messages_change_channels_only(r, messages, (k - 1) as nat, id);
        let before = LangView { scene: ingested(r, messages, (k - 1) as nat), ..r };
        lemma_taken_elsewhere(before, messages[k - 1], id);
    }
}

} // verus!
