//! A world changed by transactions: what a transaction does becomes visible at its
//! commit, all of it or nothing.

use crate::api::{
    error, spec_error, Access, ComponentTypeId, EntityRef, Error, Hash256, Ownership,
    OwnershipEpoch, RegionId, ResourceId, SimTime, Status, TransferId, WorldId, WorldVersion,
};
use crate::bytes::{head, le_bytes, le_value, value_from_bytes, value_into_bytes};
use crate::table::{
    drop_at, get_at, in_order, law_drop_keeps_order, law_order_fixes_table, law_put_keeps_order,
    law_put_then_get, put_at, Ordered, Table,
};
use vstd::prelude::*;

verus! {

impl Ordered for EntityRef {
    open spec fn before(self, other: Self) -> bool {
        self.id.0 < other.id.0 || (self.id.0 == other.id.0 && self.generation < other.generation)
    }

    fn is_before(&self, other: &Self) -> (r: bool) {
        self.id.0 < other.id.0 || (self.id.0 == other.id.0 && self.generation < other.generation)
    }

    fn is_same(&self, other: &Self) -> (r: bool) {
        *self == *other
    }

    proof fn lemma_strict(a: Self) {
    }

    proof fn lemma_chained(a: Self, b: Self, c: Self) {
    }

    proof fn lemma_total(a: Self, b: Self) {
    }
}

impl Ordered for ComponentTypeId {
    open spec fn before(self, other: Self) -> bool {
        self.0 < other.0
    }

    fn is_before(&self, other: &Self) -> (r: bool) {
        self.0 < other.0
    }

    fn is_same(&self, other: &Self) -> (r: bool) {
        *self == *other
    }

    proof fn lemma_strict(a: Self) {
    }

    proof fn lemma_chained(a: Self, b: Self, c: Self) {
    }

    proof fn lemma_total(a: Self, b: Self) {
    }
}

impl Ordered for (EntityRef, ComponentTypeId) {
    open spec fn before(self, other: Self) -> bool {
        self.0.before(other.0) || (self.0 == other.0 && self.1.before(other.1))
    }

    fn is_before(&self, other: &Self) -> (r: bool) {
        self.0.is_before(&other.0) || (self.0.is_same(&other.0) && self.1.is_before(&other.1))
    }

    fn is_same(&self, other: &Self) -> (r: bool) {
        self.0.is_same(&other.0) && self.1.is_same(&other.1)
    }

    proof fn lemma_strict(a: Self) {
    }

    proof fn lemma_chained(a: Self, b: Self, c: Self) {
    }

    proof fn lemma_total(a: Self, b: Self) {
    }
}

impl Ordered for TransferId {
    open spec fn before(self, other: Self) -> bool {
        self.0 < other.0
    }

    fn is_before(&self, other: &Self) -> (r: bool) {
        self.0 < other.0
    }

    fn is_same(&self, other: &Self) -> (r: bool) {
        *self == *other
    }

    proof fn lemma_strict(a: Self) {
    }

    proof fn lemma_chained(a: Self, b: Self, c: Self) {
    }

    proof fn lemma_total(a: Self, b: Self) {
    }
}

impl Ordered for ResourceId {
    open spec fn before(self, other: Self) -> bool {
        self.0 < other.0
    }

    fn is_before(&self, other: &Self) -> (r: bool) {
        self.0 < other.0
    }

    fn is_same(&self, other: &Self) -> (r: bool) {
        *self == *other
    }

    proof fn lemma_strict(a: Self) {
    }

    proof fn lemma_chained(a: Self, b: Self, c: Self) {
    }

    proof fn lemma_total(a: Self, b: Self) {
    }
}

impl View for Ownership {
    type V = Ownership;

    open spec fn view(&self) -> Ownership {
        *self
    }
}

/// The layout of a component's values.
#[derive(Clone, Copy, Debug)]
pub struct ComponentDescriptor {
    pub type_id: ComponentTypeId,
    pub schema_hash: Hash256,
    pub abi_major: u16,
    pub flags: u32,
    pub value_size: u32,
    pub value_align: u32,
}

/// What a registered schema fixes of a component type.
#[derive(Clone, Copy, Debug)]
pub struct Schema {
    pub type_id: ComponentTypeId,
    pub hash: Hash256,
    /// The bytes of a value.
    pub size: u32,
}

impl View for Schema {
    type V = Schema;

    open spec fn view(&self) -> Schema {
        *self
    }
}

/// The schemas after a registration, and its answer. They are taken in order; one that
/// gives a known type another hash ends the registration, and one that is known already
/// changes nothing.
pub open spec fn registered(
    known: Seq<(ComponentTypeId, Schema)>,
    schemas: Seq<Schema>,
    conflict: Error,
) -> (Seq<(ComponentTypeId, Schema)>, Result<(), Error>)
    decreases schemas.len(),
{
    if schemas.len() == 0 {
        (known, Ok(()))
    } else {
        let s = schemas[0];
        match get_at(known, s.type_id) {
            Some(k) => if k.hash@ == s.hash@ {
                registered(known, schemas.drop_first(), conflict)
            } else {
                (known, Err(conflict))
            },
            None => registered(put_at(known, s.type_id, s), schemas.drop_first(), conflict),
        }
    }
}

/// Whether a descriptor has the value size and the hash of a schema.
pub open spec fn conforms(d: ComponentDescriptor, s: Schema) -> bool {
    d.value_size == s.size && d.schema_hash@ == s.hash@
}

/// The errors that a descriptor may meet: the word of the general descriptor rules on
/// it, and the error for one that departs from the schema of its type.
#[derive(Clone, Copy, Debug, PartialEq, Eq, Structural)]
pub struct DescriptorChecks {
    pub base: Option<Error>,
    pub mismatch: Error,
}

/// The verdict on a descriptor. Where its type has a schema, it must conform to that;
/// otherwise only the general rules hold.
pub open spec fn verdict(
    schemas: Seq<(ComponentTypeId, Schema)>,
    d: ComponentDescriptor,
    c: DescriptorChecks,
) -> Option<Error> {
    match get_at(schemas, d.type_id) {
        Some(s) => if conforms(d, s) {
            c.base
        } else {
            Some(c.mismatch)
        },
        None => c.base,
    }
}

/// A committed component value.
#[derive(Debug)]
pub struct ComponentState {
    pub descriptor: ComponentDescriptor,
    pub bytes: Vec<u8>,
}

/// The mathematical value of a [`ComponentState`].
pub struct StateView {
    pub descriptor: ComponentDescriptor,
    pub bytes: Seq<u8>,
}

impl View for ComponentState {
    type V = StateView;

    open spec fn view(&self) -> StateView {
        StateView { descriptor: self.descriptor, bytes: self.bytes@ }
    }
}

/// A reference that a world holds to a resource.
#[derive(Clone, Copy, Debug)]
pub struct ResourceRef {
    pub content_hash: Hash256,
    pub schema_hash: Hash256,
}

impl View for ResourceRef {
    type V = ResourceRef;

    open spec fn view(&self) -> ResourceRef {
        *self
    }
}

/// The stages of a transaction.
#[derive(Clone, Copy, Debug, PartialEq, Eq, Structural)]
pub enum TxnState {
    Open,
    Prepared,
    Validated,
    Committed,
    Aborted,
}

/// An event. It is committed with its transaction and carries that version.
#[derive(Clone, Copy, Debug, PartialEq, Eq, Structural)]
pub struct WorldEvent {
    pub world_version: WorldVersion,
    pub kind: u32,
    pub payload: u64,
}

/// What happens to writes whose base version is out of date.
#[derive(Clone, Copy, Debug, PartialEq, Eq, Structural)]
pub enum ConflictPolicy {
    Reject,
    LastWriterByPriority,
    /// Merge where a merge is registered for the type, else overwrite.
    Merge,
    /// Merge by the registered merge, which must be there.
    CommutativeMerge,
}

/// What a transaction starts from.
#[derive(Clone, Copy, Debug, PartialEq, Eq, Structural)]
pub struct TransactionOptions {
    pub base_version: WorldVersion,
    pub ownership: Ownership,
    pub policy: ConflictPolicy,
}

/// The claims of a capability whose token was verified.
#[derive(Clone, Copy, Debug)]
pub struct CapabilityClaims {
    pub issuer: Hash256,
    pub subject: Hash256,
    pub world: WorldId,
    pub region: RegionId,
    pub access: Access,
    pub expires_at_version: WorldVersion,
    pub nonce: [u8; 16],
}

/// A proposal to move an entity to another region.
#[derive(Clone, Copy, Debug, PartialEq, Eq, Structural)]
pub struct TransferProposal {
    pub id: TransferId,
    pub entity: EntityRef,
    pub source: Ownership,
    pub target: RegionId,
    pub base_version: WorldVersion,
}

impl View for TransferProposal {
    type V = TransferProposal;

    open spec fn view(&self) -> TransferProposal {
        *self
    }
}

/// A commit: the version that it made.
#[derive(Clone, Copy, Debug, PartialEq, Eq, Structural)]
pub struct Commit {
    pub world_version: WorldVersion,
}

/// A registered merge of two values of a component, the committed one first.
#[derive(Debug)]
pub struct MergeRule<F> {
    pub merge: F,
}

impl<F> View for MergeRule<F> {
    type V = F;

    open spec fn view(&self) -> F {
        self.merge
    }
}

/// A world. The merges are functions of two 64-bit values.
#[derive(Debug)]
pub struct ReferenceWorld<F> {
    pub id: WorldId,
    pub version: WorldVersion,
    pub sim_time: SimTime,
    pub entities: Table<EntityRef, Ownership>,
    pub components: Table<(EntityRef, ComponentTypeId), ComponentState>,
    pub resource_refs: Table<ResourceId, ResourceRef>,
    /// Committed events; the list only grows.
    pub events: Vec<WorldEvent>,
    pub merges: Table<ComponentTypeId, MergeRule<F>>,
    /// The schemas that descriptors are held against.
    pub schemas: Table<ComponentTypeId, Schema>,
    pub transfers: Table<TransferId, TransferProposal>,
}

/// The mathematical value of a [`ReferenceWorld`].
pub struct WorldView<F> {
    pub id: WorldId,
    pub version: WorldVersion,
    pub sim_time: SimTime,
    pub entities: Seq<(EntityRef, Ownership)>,
    pub components: Seq<((EntityRef, ComponentTypeId), StateView)>,
    pub resource_refs: Seq<(ResourceId, ResourceRef)>,
    pub events: Seq<WorldEvent>,
    pub merges: Seq<(ComponentTypeId, F)>,
    pub schemas: Seq<(ComponentTypeId, Schema)>,
    pub transfers: Seq<(TransferId, TransferProposal)>,
}

impl<F> View for ReferenceWorld<F> {
    type V = WorldView<F>;

    open spec fn view(&self) -> WorldView<F> {
        WorldView {
            id: self.id,
            version: self.version,
            sim_time: self.sim_time,
            entities: self.entities@,
            components: self.components@,
            resource_refs: self.resource_refs@,
            events: self.events@,
            merges: self.merges@,
            schemas: self.schemas@,
            transfers: self.transfers@,
        }
    }
}

/// A world in which nothing has happened yet.
pub open spec fn fresh_world<F>(id: WorldId) -> WorldView<F> {
    WorldView {
        id,
        version: WorldVersion(0),
        sim_time: SimTime(0),
        entities: Seq::empty(),
        components: Seq::empty(),
        resource_refs: Seq::empty(),
        events: Seq::empty(),
        merges: Seq::empty(),
        schemas: Seq::empty(),
        transfers: Seq::empty(),
    }
}

/// Whether every registered merge accepts all values.
pub open spec fn total_merges<F: Fn(u64, u64) -> u64>(w: WorldView<F>) -> bool {
    forall|i: int, a: u64, b: u64|
        0 <= i < w.merges.len() ==> #[trigger] call_requires(w.merges[i].1, (a, b))
}

/// The owner of an entity, or the error for one that is not there.
pub open spec fn owner<F>(w: WorldView<F>, entity: EntityRef) -> Result<Ownership, Error> {
    match get_at(w.entities, entity) {
        Some(o) => Ok(o),
        None => Err(spec_error(Status::HandleStale, 1)),
    }
}

/// The outcome of preparing a transfer: an error, or the transfers afterwards.
pub open spec fn prepared<F>(w: WorldView<F>, p: TransferProposal) -> Result<
    Seq<(TransferId, TransferProposal)>,
    Error,
> {
    if p.base_version != w.version || p.target == p.source.region {
        Err(spec_error(Status::Invalid, 5))
    } else {
        match owner(w, p.entity) {
            Err(e) => Err(e),
            Ok(o) => if o != p.source {
                Err(spec_error(Status::OwnershipStale, 3))
            } else {
                match get_at(w.transfers, p.id) {
                    Some(existing) => if existing == p {
                        Ok(w.transfers)
                    } else {
                        Err(spec_error(Status::Conflict, 6))
                    },
                    None => if in_transfer(w.transfers, p.entity) {
                        Err(spec_error(Status::Conflict, 7))
                    } else {
                        Ok(put_at(w.transfers, p.id, p))
                    },
                }
            },
        }
    }
}

/// Whether some transfer concerns an entity.
pub open spec fn in_transfer(s: Seq<(TransferId, TransferProposal)>, entity: EntityRef) -> bool {
    exists|i: int| 0 <= i < s.len() && (#[trigger] s[i]).1.entity == entity
}

/// The world and the answer after the confirmation of a transfer. A transfer that is
/// confirmed already is answered alike and changes nothing.
pub open spec fn confirmed<F>(w: WorldView<F>, id: TransferId) -> (
    WorldView<F>,
    Result<Ownership, Error>,
) {
    match get_at(w.transfers, id) {
        None => (w, Err(spec_error(Status::HandleStale, 5))),
        Some(p) => match owner(w, p.entity) {
            Err(e) => (w, Err(e)),
            Ok(current) => if current.region == p.target && current.epoch.0 == p.source.epoch.0 + 1 {
                (w, Ok(current))
            } else if current != p.source {
                (w, Err(spec_error(Status::OwnershipStale, 4)))
            } else if p.source.epoch.0 == u64::MAX {
                (w, Err(spec_error(Status::Limit, 1)))
            } else {
                let o = Ownership {
                    region: p.target,
                    epoch: OwnershipEpoch((p.source.epoch.0 + 1) as u64),
                };
                (
                    WorldView {
                        entities: put_at(w.entities, p.entity, o),
                        version: WorldVersion((w.version.0 + 1) as u64),
                        ..w
                    },
                    Ok(o),
                )
            },
        },
    }
}

/// Whether claims cover a transaction: they are for this world and for the owner's
/// region, and not expired.
pub open spec fn claims_hold(
    c: CapabilityClaims,
    options: TransactionOptions,
    id: WorldId,
    version: WorldVersion,
) -> bool {
    c.world == id && c.region == options.ownership.region && version.0 <= c.expires_at_version.0
}

/// Checks claims against a transaction.
pub fn enforce_claims(
    c: &CapabilityClaims,
    options: &TransactionOptions,
    id: WorldId,
    version: WorldVersion,
) -> (r: Result<(), Error>)
    ensures
        r == (if claims_hold(*c, *options, id, version) {
            Ok::<(), Error>(())
        } else {
            Err(spec_error(Status::Capability, 1))
        }),
{
    if c.world == id && c.region == options.ownership.region && version.0
        <= c.expires_at_version.0 {
        Ok(())
    } else {
        Err(error(Status::Capability, 1))
    }
}

impl<F: Fn(u64, u64) -> u64> ReferenceWorld<F> {
    /// A world in which nothing has happened yet.
    pub fn new(id: WorldId) -> (w: Self)
        ensures
            w@ == fresh_world::<F>(id),
            total_merges(w@),
            tables_in_order(w@),
    {
        ReferenceWorld {
            id,
            version: WorldVersion(0),
            sim_time: SimTime(0),
            entities: Table::new(),
            components: Table::new(),
            resource_refs: Table::new(),
            events: Vec::new(),
            merges: Table::new(),
            schemas: Table::new(),
            transfers: Table::new(),
        }
    }

    /// The committed events in order.
    pub fn events(&self) -> (r: &Vec<WorldEvent>)
        ensures
            r@ == self@.events,
    {
        &self.events
    }

    /// Registers schemas, against which descriptors are held. `conflict` is the error for
    /// one that gives a known type another hash; those before it stay registered.
    pub fn register_schemas(&mut self, schemas: &Vec<Schema>, conflict: Error) -> (r: Result<
        (),
        Error,
    >)
        ensures
            (final(self)@.schemas, r) == registered(old(self)@.schemas, schemas@, conflict),
            final(self)@ == (WorldView { schemas: final(self)@.schemas, ..old(self)@ }),
    {
        let mut i: usize = 0;
        proof {
            assert(schemas@.skip(0) =~= schemas@);
        }
        while i < schemas.len()
            invariant
                i <= schemas.len(),
                registered(old(self)@.schemas, schemas@, conflict) == registered(
                    self@.schemas,
                    schemas@.skip(i as int),
                    conflict,
                ),
                self@ == (WorldView { schemas: self@.schemas, ..old(self)@ }),
            decreases schemas.len() - i,
        {
            proof {
                assert(schemas@.skip(i as int).drop_first() =~= schemas@.skip(i + 1));
            }
            let s: Schema = schemas[i];
            let known: Option<bool> = match self.schemas.get(&s.type_id) {
                Some(k) => Some(k.hash.same(&s.hash)),
                None => None,
            };
            match known {
                Some(alike) => if !alike {
                    return Err(conflict);
                },
                None => self.schemas.put(s.type_id, s),
            }
            i = i + 1;
        }
        Ok(())
    }

    /// Decides on a descriptor.
    pub fn validate_descriptor(
        &self,
        descriptor: &ComponentDescriptor,
        checks: &DescriptorChecks,
    ) -> (r: Result<(), Error>)
        ensures
            r == answer(verdict(self@.schemas, *descriptor, *checks)),
    {
        if let Some(s) = self.schemas.get(&descriptor.type_id) {
            if descriptor.value_size != s.size || !descriptor.schema_hash.same(&s.hash) {
                return Err(checks.mismatch);
            }
        }
        match checks.base {
            Some(e) => Err(e),
            None => Ok(()),
        }
    }

    /// Registers the merge of a component type, in place of an earlier one.
    pub fn register_merge(&mut self, type_id: ComponentTypeId, f: F)
        requires
            total_merges(old(self)@),
            forall|a: u64, b: u64| call_requires(f, (a, b)),
        ensures
            final(self)@ == (WorldView {
                merges: put_at(old(self)@.merges, type_id, f),
                ..old(self)@
            }),
            total_merges(final(self)@),
    {
        let ghost before = self@.merges;
        self.merges.put(type_id, MergeRule { merge: f });
        proof {
            assert forall|i: int, a: u64, b: u64|
                0 <= i < self@.merges.len() implies #[trigger] call_requires(
                self@.merges[i].1,
                (a, b),
            ) by {
                lemma_put_values(before, type_id, f, i);
                if self@.merges[i].1 != f {
                    let k = choose|k: int|
                        0 <= k < before.len() && (#[trigger] before[k]).1 == self@.merges[i].1;
                    assert(call_requires(before[k].1, (a, b)));
                }
            }
        }
    }

    pub fn id(&self) -> (r: WorldId)
        ensures
            r == self@.id,
    {
        self.id
    }

    pub fn version(&self) -> (r: WorldVersion)
        ensures
            r == self@.version,
    {
        self.version
    }

    pub fn sim_time(&self) -> (r: SimTime)
        ensures
            r == self@.sim_time,
    {
        self.sim_time
    }

    /// Sets the clock of the world.
    pub fn advance_time(&mut self, sim_time: SimTime)
        ensures
            final(self)@ == (WorldView { sim_time, ..old(self)@ }),
    {
        self.sim_time = sim_time;
    }

    /// The resources that the world refers to, in the order of their ids.
    pub fn resource_refs(&self) -> (r: &Table<ResourceId, ResourceRef>)
        ensures
            r@ == self@.resource_refs,
    {
        &self.resource_refs
    }

    /// Records a reference to a resource.
    pub fn set_resource_ref(&mut self, id: ResourceId, reference: ResourceRef)
        ensures
            final(self)@ == (WorldView {
                resource_refs: put_at(old(self)@.resource_refs, id, reference),
                ..old(self)@
            }),
    {
        self.resource_refs.put(id, reference);
    }

    /// The owner of an entity.
    pub fn ownership(&self, entity: EntityRef) -> (r: Result<Ownership, Error>)
        ensures
            r == owner(self@, entity),
    {
        match self.entities.get(&entity) {
            Some(o) => Ok(*o),
            None => Err(error(Status::HandleStale, 1)),
        }
    }

    /// The committed bytes of a component.
    pub fn component_bytes(&self, entity: EntityRef, component: ComponentTypeId) -> (r: Result<
        &Vec<u8>,
        Error,
    >)
        ensures
            match r {
                Ok(b) => get_at(self@.components, (entity, component)) matches Some(s) && s.bytes
                    == b@,
                Err(e) => get_at(self@.components, (entity, component)) is None && e == spec_error(
                    Status::HandleStale,
                    3,
                ),
            },
    {
        match self.components.get(&(entity, component)) {
            Some(s) => Ok(&s.bytes),
            None => Err(error(Status::HandleStale, 3)),
        }
    }

    /// Announces a transfer. From then on other transfers of the entity are refused.
    pub fn prepare_transfer(&mut self, proposal: TransferProposal) -> (r: Result<(), Error>)
        ensures
            match prepared(old(self)@, proposal) {
                Ok(transfers) => r is Ok && final(self)@ == (WorldView { transfers, ..old(self)@ }),
                Err(e) => r == Err::<(), Error>(e) && final(self)@ == old(self)@,
            },
    {
        if proposal.base_version != self.version || proposal.target == proposal.source.region {
            return Err(error(Status::Invalid, 5));
        }
        let current: Ownership = match self.ownership(proposal.entity) {
            Ok(o) => o,
            Err(e) => return Err(e),
        };
        if current != proposal.source {
            return Err(error(Status::OwnershipStale, 3));
        }
        if let Some(existing) = self.transfers.get(&proposal.id) {
            return if *existing == proposal {
                Ok(())
            } else {
                Err(error(Status::Conflict, 6))
            };
        }
        if find_transfer(&self.transfers, proposal.entity) {
            return Err(error(Status::Conflict, 7));
        }
        self.transfers.put(proposal.id, proposal);
        Ok(())
    }

    /// Confirms a transfer: the target owns the entity from the next epoch on. A
    /// repeated confirmation gives the same answer and changes nothing.
    pub fn confirm_transfer(&mut self, id: TransferId) -> (r: Result<Ownership, Error>)
        requires
            old(self)@.version.0 < u64::MAX,
        ensures
            (final(self)@, r) == confirmed(old(self)@, id),
    {
        let p: TransferProposal = match self.transfers.get(&id) {
            Some(p) => *p,
            None => return Err(error(Status::HandleStale, 5)),
        };
        let current: Ownership = match self.ownership(p.entity) {
            Ok(o) => o,
            Err(e) => return Err(e),
        };
        let next: Option<u64> = p.source.epoch.0.checked_add(1);
        if current.region == p.target {
            if let Some(n) = next {
                if current.epoch.0 == n {
                    return Ok(current);
                }
            }
        }
        if current != p.source {
            return Err(error(Status::OwnershipStale, 4));
        }
        match next {
            None => Err(error(Status::Limit, 1)),
            Some(n) => {
                let o = Ownership { region: p.target, epoch: OwnershipEpoch(n) };
                self.entities.put(p.entity, o);
                self.version = WorldVersion(self.version.0 + 1);
                Ok(o)
            },
        }
    }

    /// Opens a transaction. The claims are checked before there is one.
    pub fn begin(&mut self, options: TransactionOptions, capability: CapabilityClaims) -> (r: Result<
        ReferenceTransaction<'_, F>,
        Error,
    >)
        ensures
            match r {
                Ok(t) => {
                    &&& claims_hold(capability, options, old(self)@.id, old(self)@.version)
                    &&& *t.world == *old(self)
                    &&& *final(t.world) == *final(self)
                    &&& t.txn() == fresh_txn(options, capability)
                },
                Err(e) => {
                    &&& !claims_hold(capability, options, old(self)@.id, old(self)@.version)
                    &&& e == spec_error(Status::Capability, 1)
                    &&& *final(self) == *old(self)
                },
            },
    {
        match enforce_claims(&capability, &options, self.id, self.version) {
            Err(e) => return Err(e),
            Ok(_) => {},
        }
        let t = ReferenceTransaction {
            world: self,
            options,
            state: TxnState::Open,
            creates: Vec::new(),
            destroys: Vec::new(),
            reads: Vec::new(),
            writes: Table::new(),
            events: Vec::new(),
            capability,
        };
        Ok(t)
    }
}

fn find_transfer(t: &Table<TransferId, TransferProposal>, entity: EntityRef) -> (r: bool)
    ensures
        r == in_transfer(t@, entity),
{
    let mut i: usize = 0;
    while i < t.entries.len()
        invariant
            i <= t.entries.len(),
            forall|k: int| 0 <= k < i ==> (#[trigger] t@[k]).1.entity != entity,
        decreases t.entries.len() - i,
    {
        proof {
            assert(t@[i as int].1 == t.entries@[i as int].1);
        }
        if t.entries[i].1.entity == entity {
            return true;
        }
        i = i + 1;
    }
    false
}

proof fn lemma_put_values<K: Ordered, V>(s: Seq<(K, V)>, key: K, value: V, j: int)
    requires
        0 <= j < put_at(s, key, value).len(),
    ensures
        put_at(s, key, value)[j].1 == value || exists|k: int|
            0 <= k < s.len() && (#[trigger] s[k]).1 == put_at(s, key, value)[j].1,
    decreases s.len(),
{
    let r = put_at(s, key, value);
    if s.len() == 0 {
    } else if s[0].0 == key {
        if j > 0 {
            assert(r[j] == s[j]);
        }
    } else if key.before(s[0].0) {
        if j > 0 {
            assert(r[j] == s[j - 1]);
        }
    } else {
        if j == 0 {
            assert(r[0] == s[0]);
        } else {
            let rest = s.drop_first();
            assert(r[j] == put_at(rest, key, value)[j - 1]);
            lemma_put_values(rest, key, value, j - 1);
            if r[j].1 != value {
                let k = choose|k: int| 0 <= k < rest.len() && (#[trigger] rest[k]).1 == r[j].1;
                assert(s[k + 1] == rest[k]);
            }
        }
    }
}

/// A write that waits for its commit.
#[derive(Debug)]
pub struct PendingState {
    pub descriptor: ComponentDescriptor,
    pub bytes: Vec<u8>,
    /// What the descriptor rules say of the descriptor.
    pub base: Option<Error>,
}

/// The mathematical value of a [`PendingState`].
pub struct PendingView {
    pub descriptor: ComponentDescriptor,
    pub bytes: Seq<u8>,
    pub base: Option<Error>,
}

impl View for PendingState {
    type V = PendingView;

    open spec fn view(&self) -> PendingView {
        PendingView { descriptor: self.descriptor, bytes: self.bytes@, base: self.base }
    }
}

/// A transaction on a world.
#[derive(Debug)]
pub struct ReferenceTransaction<'a, F> {
    pub world: &'a mut ReferenceWorld<F>,
    pub options: TransactionOptions,
    pub state: TxnState,
    pub creates: Vec<EntityRef>,
    pub destroys: Vec<EntityRef>,
    /// What was read, in order.
    pub reads: Vec<(EntityRef, ComponentTypeId)>,
    pub writes: Table<(EntityRef, ComponentTypeId), PendingState>,
    pub events: Vec<WorldEvent>,
    pub capability: CapabilityClaims,
}

/// The mathematical value of a transaction, apart from its world.
pub struct TxnView {
    pub options: TransactionOptions,
    pub state: TxnState,
    pub creates: Seq<EntityRef>,
    pub destroys: Seq<EntityRef>,
    pub reads: Seq<(EntityRef, ComponentTypeId)>,
    pub writes: Seq<((EntityRef, ComponentTypeId), PendingView)>,
    pub events: Seq<WorldEvent>,
    pub capability: CapabilityClaims,
}

/// A transaction in which nothing was asked for yet.
pub open spec fn fresh_txn(options: TransactionOptions, capability: CapabilityClaims) -> TxnView {
    TxnView {
        options,
        state: TxnState::Open,
        creates: Seq::empty(),
        destroys: Seq::empty(),
        reads: Seq::empty(),
        writes: Seq::empty(),
        events: Seq::empty(),
        capability,
    }
}

/// Why a create is refused.
pub open spec fn create_fault<F>(w: WorldView<F>, t: TxnView, entity: EntityRef) -> Option<Error> {
    if !t.capability.access.create {
        Some(spec_error(Status::Capability, 2))
    } else if t.state != TxnState::Open || entity.generation == 0 {
        Some(spec_error(Status::Invalid, 1))
    } else if get_at(w.entities, entity) is Some || t.creates.contains(entity) {
        Some(spec_error(Status::Conflict, 2))
    } else {
        None
    }
}

/// Why a destroy is refused.
pub open spec fn destroy_fault<F>(w: WorldView<F>, t: TxnView, entity: EntityRef) -> Option<Error> {
    if !t.capability.access.destroy {
        Some(spec_error(Status::Capability, 3))
    } else if t.state != TxnState::Open || get_at(w.entities, entity) is None {
        Some(spec_error(Status::HandleStale, 2))
    } else if t.destroys.contains(entity) {
        Some(spec_error(Status::Conflict, 3))
    } else {
        None
    }
}

/// Why a write is refused.
pub open spec fn put_fault<F>(
    w: WorldView<F>,
    t: TxnView,
    entity: EntityRef,
    descriptor: ComponentDescriptor,
    checks: DescriptorChecks,
    bytes: Seq<u8>,
) -> Option<Error> {
    if !t.capability.access.write {
        Some(spec_error(Status::Capability, 4))
    } else if t.state != TxnState::Open {
        Some(spec_error(Status::Invalid, 3))
    } else if verdict(w.schemas, descriptor, checks) is Some {
        verdict(w.schemas, descriptor, checks)
    } else if bytes.len() != descriptor.value_size {
        Some(spec_error(Status::Invalid, 4))
    } else if get_at(w.entities, entity) is None && !t.creates.contains(entity) {
        Some(spec_error(Status::HandleStale, 4))
    } else if t.destroys.contains(entity) {
        Some(spec_error(Status::Conflict, 5))
    } else {
        None
    }
}

/// Why an event is refused.
pub open spec fn emit_fault(t: TxnView) -> Option<Error> {
    if !t.capability.access.emit {
        Some(spec_error(Status::Capability, 6))
    } else if t.state != TxnState::Open {
        Some(spec_error(Status::Invalid, 6))
    } else {
        None
    }
}

/// The answer to a request that may be refused.
pub open spec fn answer(fault: Option<Error>) -> Result<(), Error> {
    match fault {
        None => Ok(()),
        Some(e) => Err(e),
    }
}

fn listed(list: &Vec<EntityRef>, entity: EntityRef) -> (r: bool)
    ensures
        r == list@.contains(entity),
{
    let mut i: usize = 0;
    while i < list.len()
        invariant
            i <= list.len(),
            forall|k: int| 0 <= k < i ==> list@[k] != entity,
        decreases list.len() - i,
    {
        if list[i] == entity {
            return true;
        }
        i = i + 1;
    }
    false
}

/// The first refusal among entities to destroy.
pub open spec fn destroys_fault<F>(
    w: WorldView<F>,
    destroys: Seq<EntityRef>,
    by: Ownership,
) -> Option<Error>
    decreases destroys.len(),
{
    if destroys.len() == 0 {
        None
    } else {
        match owner(w, destroys[0]) {
            Err(e) => Some(e),
            Ok(o) => if o != by {
                Some(spec_error(Status::OwnershipStale, 1))
            } else {
                destroys_fault(w, destroys.drop_first(), by)
            },
        }
    }
}

/// The first refusal among writes, in key order.
pub open spec fn writes_fault<F>(
    w: WorldView<F>,
    creates: Seq<EntityRef>,
    writes: Seq<((EntityRef, ComponentTypeId), PendingView)>,
    by: Ownership,
) -> Option<Error>
    decreases writes.len(),
{
    if writes.len() == 0 {
        None
    } else {
        let entity = writes[0].0.0;
        match writes[0].1.base {
            Some(e) => Some(e),
            None => if creates.contains(entity) {
                writes_fault(w, creates, writes.drop_first(), by)
            } else {
                match owner(w, entity) {
                    Err(e) => Some(e),
                    Ok(o) => if o != by {
                        Some(spec_error(Status::OwnershipStale, 2))
                    } else {
                        writes_fault(w, creates, writes.drop_first(), by)
                    },
                }
            },
        }
    }
}

/// Whether the base version of a transaction is out of date.
pub open spec fn stale<F>(w: WorldView<F>, t: TxnView) -> bool {
    t.options.base_version != w.version
}

/// Whether a transaction merges its writes into what is committed.
pub open spec fn merging<F>(w: WorldView<F>, t: TxnView) -> bool {
    stale(w, t) && (t.options.policy == ConflictPolicy::Merge || t.options.policy
        == ConflictPolicy::CommutativeMerge)
}

/// Whether a write meets a committed value for which no merge is registered.
pub open spec fn lacks_merge<F>(
    w: WorldView<F>,
    write: ((EntityRef, ComponentTypeId), PendingView),
) -> bool {
    get_at(w.components, write.0) is Some && get_at(w.merges, write.1.descriptor.type_id) is None
}

/// Why a commit fails; none where it succeeds.
pub open spec fn commit_fault<F>(w: WorldView<F>, t: TxnView) -> Option<Error> {
    if t.state != TxnState::Open {
        Some(spec_error(Status::Invalid, 2))
    } else {
        match destroys_fault(w, t.destroys, t.options.ownership) {
            Some(e) => Some(e),
            None => match writes_fault(w, t.creates, t.writes, t.options.ownership) {
                Some(e) => Some(e),
                None => if stale(w, t) && t.options.policy == ConflictPolicy::Reject {
                    Some(spec_error(Status::Conflict, 4))
                } else if stale(w, t) && t.options.policy == ConflictPolicy::CommutativeMerge
                    && exists|i: int|
                    0 <= i < t.writes.len() && lacks_merge(w, #[trigger] t.writes[i]) {
                    Some(spec_error(Status::SchemaUnsupported, 5))
                } else {
                    None
                },
            },
        }
    }
}

/// Whether a committed state is what a write comes to: its own bytes, or what the
/// registered merge makes of the committed value and its own.
pub open spec fn settles<F: Fn(u64, u64) -> u64>(
    w: WorldView<F>,
    t: TxnView,
    write: ((EntityRef, ComponentTypeId), PendingView),
    s: StateView,
) -> bool {
    s.descriptor == write.1.descriptor && match (
        get_at(w.components, write.0),
        get_at(w.merges, write.1.descriptor.type_id),
    ) {
        (Some(c), Some(f)) => if merging(w, t) {
            exists|r: u64|
                #[trigger] call_ensures(
                    f,
                    (le_value(head(c.bytes)) as u64, le_value(head(write.1.bytes)) as u64),
                    r,
                ) && s.bytes == le_bytes(r as nat, write.1.bytes.len())
        } else {
            s.bytes == write.1.bytes
        },
        _ => s.bytes == write.1.bytes,
    }
}

/// Whether committed states are what the writes of a transaction come to.
pub open spec fn all_settle<F: Fn(u64, u64) -> u64>(
    w: WorldView<F>,
    t: TxnView,
    states: Seq<((EntityRef, ComponentTypeId), StateView)>,
) -> bool {
    &&& states.len() == t.writes.len()
    &&& forall|i: int|
        0 <= i < states.len() ==> (#[trigger] states[i]).0 == t.writes[i].0 && settles(
            w,
            t,
            t.writes[i],
            states[i].1,
        )
}

/// Entities without the first `k` of a list.
pub open spec fn without_entities(
    entities: Seq<(EntityRef, Ownership)>,
    gone: Seq<EntityRef>,
    k: nat,
) -> Seq<(EntityRef, Ownership)>
    decreases k,
{
    if k == 0 || k > gone.len() {
        entities
    } else {
        drop_at(without_entities(entities, gone, (k - 1) as nat), gone[k - 1])
    }
}

/// Entities with the first `k` of a list, all with one owner.
pub open spec fn with_new(
    entities: Seq<(EntityRef, Ownership)>,
    list: Seq<EntityRef>,
    by: Ownership,
    k: nat,
) -> Seq<(EntityRef, Ownership)>
    decreases k,
{
    if k == 0 || k > list.len() {
        entities
    } else {
        put_at(with_new(entities, list, by, (k - 1) as nat), list[k - 1], by)
    }
}

/// Components without those of an entity.
pub open spec fn without_entity(
    s: Seq<((EntityRef, ComponentTypeId), StateView)>,
    entity: EntityRef,
) -> Seq<((EntityRef, ComponentTypeId), StateView)>
    decreases s.len(),
{
    if s.len() == 0 {
        Seq::empty()
    } else if s[0].0.0 == entity {
        without_entity(s.drop_first(), entity)
    } else {
        seq![s[0]] + without_entity(s.drop_first(), entity)
    }
}

/// Components without those of the first `k` entities of a list.
pub open spec fn without_components(
    s: Seq<((EntityRef, ComponentTypeId), StateView)>,
    gone: Seq<EntityRef>,
    k: nat,
) -> Seq<((EntityRef, ComponentTypeId), StateView)>
    decreases k,
{
    if k == 0 || k > gone.len() {
        s
    } else {
        without_entity(without_components(s, gone, (k - 1) as nat), gone[k - 1])
    }
}

/// Components with the first `k` of some states.
pub open spec fn with_states(
    s: Seq<((EntityRef, ComponentTypeId), StateView)>,
    states: Seq<((EntityRef, ComponentTypeId), StateView)>,
    k: nat,
) -> Seq<((EntityRef, ComponentTypeId), StateView)>
    decreases k,
{
    if k == 0 || k > states.len() {
        s
    } else {
        put_at(with_states(s, states, (k - 1) as nat), states[k - 1].0, states[k - 1].1)
    }
}

/// Events stamped with a version.
pub open spec fn stamped(events: Seq<WorldEvent>, version: WorldVersion) -> Seq<WorldEvent> {
    events.map_values(|e: WorldEvent| WorldEvent { world_version: version, ..e })
}

/// The world after a commit whose writes come to the given states.
pub open spec fn committed<F>(
    w: WorldView<F>,
    t: TxnView,
    states: Seq<((EntityRef, ComponentTypeId), StateView)>,
) -> WorldView<F> {
    let version = WorldVersion((w.version.0 + 1) as u64);
    WorldView {
        entities: with_new(
            without_entities(w.entities, t.destroys, t.destroys.len()),
            t.creates,
            t.options.ownership,
            t.creates.len(),
        ),
        components: with_states(
            without_components(w.components, t.destroys, t.destroys.len()),
            states,
            states.len(),
        ),
        version,
        events: w.events + stamped(t.events, version),
        ..w
    }
}

impl<'a, F: Fn(u64, u64) -> u64> ReferenceTransaction<'a, F> {
    /// The mathematical value, apart from the world.
    pub open spec fn txn(&self) -> TxnView {
        TxnView {
            options: self.options,
            state: self.state,
            creates: self.creates@,
            destroys: self.destroys@,
            reads: self.reads@,
            writes: self.writes@,
            events: self.events@,
            capability: self.capability,
        }
    }

    /// Asks for a new entity.
    pub fn create(&mut self, entity: EntityRef) -> (r: Result<(), Error>)
        ensures
            *final(self).world == *old(self).world,
            *final(final(self).world) == *final(old(self).world),
            r == answer(create_fault(old(self).world@, old(self).txn(), entity)),
            final(self).txn() == (if r is Ok {
                TxnView { creates: old(self).txn().creates.push(entity), ..old(self).txn() }
            } else {
                old(self).txn()
            }),
    {
        if !self.capability.access.create {
            return Err(error(Status::Capability, 2));
        }
        if self.state != TxnState::Open || entity.generation == 0 {
            return Err(error(Status::Invalid, 1));
        }
        if self.world.entities.has(&entity) || listed(&self.creates, entity) {
            return Err(error(Status::Conflict, 2));
        }
        self.creates.push(entity);
        Ok(())
    }

    /// Asks for the end of an entity.
    pub fn destroy(&mut self, entity: EntityRef) -> (r: Result<(), Error>)
        ensures
            *final(self).world == *old(self).world,
            *final(final(self).world) == *final(old(self).world),
            r == answer(destroy_fault(old(self).world@, old(self).txn(), entity)),
            final(self).txn() == (if r is Ok {
                TxnView { destroys: old(self).txn().destroys.push(entity), ..old(self).txn() }
            } else {
                old(self).txn()
            }),
    {
        if !self.capability.access.destroy {
            return Err(error(Status::Capability, 3));
        }
        if self.state != TxnState::Open || !self.world.entities.has(&entity) {
            return Err(error(Status::HandleStale, 2));
        }
        if listed(&self.destroys, entity) {
            return Err(error(Status::Conflict, 3));
        }
        self.destroys.push(entity);
        Ok(())
    }

    /// Reads committed bytes, and records what was read.
    pub fn read_component(&mut self, entity: EntityRef, type_id: ComponentTypeId) -> (r: Result<
        Vec<u8>,
        Error,
    >)
        ensures
            *final(self).world == *old(self).world,
            *final(final(self).world) == *final(old(self).world),
            match r {
                Ok(b) => {
                    &&& old(self).state == TxnState::Open
                    &&& get_at(old(self).world@.components, (entity, type_id)) matches Some(s)
                        && s.bytes == b@
                },
                Err(e) => if old(self).state != TxnState::Open {
                    e == spec_error(Status::Invalid, 7)
                } else {
                    get_at(old(self).world@.components, (entity, type_id)) is None && e
                        == spec_error(Status::HandleStale, 3)
                },
            },
            final(self).txn() == (if r is Ok {
                TxnView { reads: old(self).txn().reads.push((entity, type_id)), ..old(self).txn() }
            } else {
                old(self).txn()
            }),
    {
        if self.state != TxnState::Open {
            return Err(error(Status::Invalid, 7));
        }
        let bytes: Vec<u8> = match self.world.component_bytes(entity, type_id) {
            Ok(b) => copy_bytes(b),
            Err(e) => return Err(e),
        };
        self.reads.push((entity, type_id));
        Ok(bytes)
    }

    /// Asks for a write. `checks` holds the errors that the descriptor may meet.
    pub fn put_component(
        &mut self,
        entity: EntityRef,
        descriptor: ComponentDescriptor,
        checks: DescriptorChecks,
        bytes: &Vec<u8>,
    ) -> (r: Result<(), Error>)
        ensures
            *final(self).world == *old(self).world,
            *final(final(self).world) == *final(old(self).world),
            r == answer(
                put_fault(old(self).world@, old(self).txn(), entity, descriptor, checks, bytes@),
            ),
            final(self).txn() == (if r is Ok {
                TxnView {
                    writes: put_at(
                        old(self).txn().writes,
                        (entity, descriptor.type_id),
                        PendingView { descriptor, bytes: bytes@, base: checks.base },
                    ),
                    ..old(self).txn()
                }
            } else {
                old(self).txn()
            }),
    {
        if !self.capability.access.write {
            return Err(error(Status::Capability, 4));
        }
        if self.state != TxnState::Open {
            return Err(error(Status::Invalid, 3));
        }
        match self.world.validate_descriptor(&descriptor, &checks) {
            Err(e) => return Err(e),
            Ok(_) => {},
        }
        if bytes.len() as u64 != descriptor.value_size as u64 {
            return Err(error(Status::Invalid, 4));
        }
        if !self.world.entities.has(&entity) && !listed(&self.creates, entity) {
            return Err(error(Status::HandleStale, 4));
        }
        if listed(&self.destroys, entity) {
            return Err(error(Status::Conflict, 5));
        }
        self.writes.put(
            (entity, descriptor.type_id),
            PendingState { descriptor, bytes: copy_bytes(bytes), base: checks.base },
        );
        Ok(())
    }

    /// Asks for an event.
    pub fn emit(&mut self, kind: u32, payload: u64) -> (r: Result<(), Error>)
        ensures
            *final(self).world == *old(self).world,
            *final(final(self).world) == *final(old(self).world),
            r == answer(emit_fault(old(self).txn())),
            final(self).txn() == (if r is Ok {
                TxnView {
                    events: old(self).txn().events.push(
                        WorldEvent { world_version: old(self).world@.version, kind, payload },
                    ),
                    ..old(self).txn()
                }
            } else {
                old(self).txn()
            }),
    {
        if !self.capability.access.emit {
            return Err(error(Status::Capability, 6));
        }
        if self.state != TxnState::Open {
            return Err(error(Status::Invalid, 6));
        }
        let world_version: WorldVersion = self.world.version;
        self.events.push(WorldEvent { world_version, kind, payload });
        Ok(())
    }

    /// Commits: everything that was asked for takes effect and the version grows by
    /// one, or nothing changes.
    pub fn commit(self) -> (r: Result<Commit, Error>)
        requires
            self.world@.version.0 < u64::MAX,
            total_merges(self.world@),
        ensures
            match r {
                Err(e) => commit_fault(old(self.world)@, self.txn()) == Some(e)
                    && *final(self.world) == *old(self.world),
                Ok(c) => {
                    &&& commit_fault(old(self.world)@, self.txn()) is None
                    &&& c.world_version.0 == old(self.world)@.version.0 + 1
                    &&& exists|states: Seq<((EntityRef, ComponentTypeId), StateView)>| #[trigger]
                        all_settle(old(self.world)@, self.txn(), states) && final(self.world)@
                            == committed(old(self.world)@, self.txn(), states)
                },
            },
            total_merges(final(self.world)@),
    {
        let ghost t = self.txn();
        let ghost w = self.world@;
        if self.state != TxnState::Open {
            return Err(error(Status::Invalid, 2));
        }
        if let Some(e) = check_destroys(&*self.world, &self.destroys, self.options.ownership) {
            return Err(e);
        }
        if let Some(e) = check_writes(
            &*self.world,
            &self.creates,
            &self.writes,
            self.options.ownership,
        ) {
            return Err(e);
        }
        let late: bool = self.options.base_version != self.world.version;
        if late && self.options.policy == ConflictPolicy::Reject {
            return Err(error(Status::Conflict, 4));
        }
        let merge: bool = late && (self.options.policy == ConflictPolicy::Merge
            || self.options.policy == ConflictPolicy::CommutativeMerge);
        let must: bool = late && self.options.policy == ConflictPolicy::CommutativeMerge;
        let states: Vec<((EntityRef, ComponentTypeId), ComponentState)> = match settle_writes(
            &*self.world,
            &self.writes,
            merge,
            must,
            Ghost(t),
        ) {
            Ok(s) => s,
            Err(e) => return Err(e),
        };
        let ghost sv = state_views(states@);
        let world = self.world;
        remove_entities(&mut world.entities, &self.destroys);
        remove_components(&mut world.components, &self.destroys);
        add_entities(&mut world.entities, &self.creates, self.options.ownership);
        add_states(&mut world.components, states);
        let version = WorldVersion(world.version.0 + 1);
        world.version = version;
        add_events(&mut world.events, &self.events, version);
        proof {
            assert(all_settle(w, t, sv));
            assert(world@ == committed(w, t, sv));
        }
        Ok(Commit { world_version: version })
    }

    /// Drops the transaction: nothing changes.
    pub fn abort(self)
        ensures
            *final(self.world) == *old(self.world),
    {
    }
}

fn copy_bytes(bytes: &Vec<u8>) -> (r: Vec<u8>)
    ensures
        r@ == bytes@,
{
    let r: Vec<u8> = bytes.clone();
    proof {
        assert(r@ =~= bytes@);
    }
    r
}

fn check_destroys<F: Fn(u64, u64) -> u64>(
    world: &ReferenceWorld<F>,
    destroys: &Vec<EntityRef>,
    by: Ownership,
) -> (r: Option<Error>)
    ensures
        r == destroys_fault(world@, destroys@, by),
{
    let mut i: usize = 0;
    proof {
        assert(destroys@.skip(0) =~= destroys@);
    }
    while i < destroys.len()
        invariant
            i <= destroys.len(),
            destroys_fault(world@, destroys@, by) == destroys_fault(
                world@,
                destroys@.skip(i as int),
                by,
            ),
        decreases destroys.len() - i,
    {
        proof {
            assert(destroys@.skip(i as int).drop_first() =~= destroys@.skip(i + 1));
        }
        match world.ownership(destroys[i]) {
            Err(e) => return Some(e),
            Ok(o) => if o != by {
                return Some(error(Status::OwnershipStale, 1));
            },
        }
        i = i + 1;
    }
    None
}

fn check_writes<F: Fn(u64, u64) -> u64>(
    world: &ReferenceWorld<F>,
    creates: &Vec<EntityRef>,
    writes: &Table<(EntityRef, ComponentTypeId), PendingState>,
    by: Ownership,
) -> (r: Option<Error>)
    ensures
        r == writes_fault(world@, creates@, writes@, by),
{
    let mut i: usize = 0;
    proof {
        assert(writes@.skip(0) =~= writes@);
    }
    while i < writes.entries.len()
        invariant
            i <= writes.entries.len(),
            writes@.len() == writes.entries.len(),
            writes_fault(world@, creates@, writes@, by) == writes_fault(
                world@,
                creates@,
                writes@.skip(i as int),
                by,
            ),
        decreases writes.entries.len() - i,
    {
        proof {
            assert(writes@.skip(i as int)[0] == (
                writes.entries@[i as int].0,
                writes.entries@[i as int].1@,
            ));
            assert(writes@.skip(i as int).drop_first() =~= writes@.skip(i + 1));
        }
        if let Some(e) = writes.entries[i].1.base {
            return Some(e);
        }
        let entity: EntityRef = writes.entries[i].0.0;
        if !listed(creates, entity) {
            match world.ownership(entity) {
                Err(e) => return Some(e),
                Ok(o) => if o != by {
                    return Some(error(Status::OwnershipStale, 2));
                },
            }
        }
        i = i + 1;
    }
    None
}

/// The values of a list of states.
pub open spec fn state_views(s: Seq<((EntityRef, ComponentTypeId), ComponentState)>) -> Seq<
    ((EntityRef, ComponentTypeId), StateView),
> {
    s.map_values(|e: ((EntityRef, ComponentTypeId), ComponentState)| (e.0, e.1@))
}

fn settle_writes<F: Fn(u64, u64) -> u64>(
    world: &ReferenceWorld<F>,
    writes: &Table<(EntityRef, ComponentTypeId), PendingState>,
    merge: bool,
    must: bool,
    Ghost(t): Ghost<TxnView>,
) -> (r: Result<Vec<((EntityRef, ComponentTypeId), ComponentState)>, Error>)
    requires
        total_merges(world@),
        writes@ == t.writes,
        merge == merging(world@, t),
        must ==> merge,
    ensures
        match r {
            Ok(s) => all_settle(world@, t, state_views(s@)) && !(must && exists|i: int|
                0 <= i < t.writes.len() && lacks_merge(world@, #[trigger] t.writes[i])),
            Err(e) => must && e == spec_error(Status::SchemaUnsupported, 5) && exists|i: int|
                0 <= i < t.writes.len() && lacks_merge(world@, #[trigger] t.writes[i]),
        },
{
    let mut states: Vec<((EntityRef, ComponentTypeId), ComponentState)> = Vec::new();
    let mut i: usize = 0;
    while i < writes.entries.len()
        invariant
            i <= writes.entries.len(),
            states@.len() == i,
            writes@.len() == writes.entries.len(),
            total_merges(world@),
            writes@ == t.writes,
            merge == merging(world@, t),
            must ==> merge,
            must ==> forall|k: int| 0 <= k < i ==> !lacks_merge(world@, #[trigger] t.writes[k]),
            forall|k: int|
                0 <= k < i ==> (#[trigger] state_views(states@)[k]).0 == t.writes[k].0 && settles(
                    world@,
                    t,
                    t.writes[k],
                    state_views(states@)[k].1,
                ),
        decreases writes.entries.len() - i,
    {
        let ghost done = state_views(states@);
        let key: (EntityRef, ComponentTypeId) = writes.entries[i].0;
        let p: &PendingState = &writes.entries[i].1;
        proof {
            assert(t.writes[i as int] == (key, p@));
        }
        let bytes: Vec<u8> = match settle_bytes(world, &key, p, merge, must) {
            Ok(b) => b,
            Err(e) => {
                proof {
                    assert(lacks_merge(world@, t.writes[i as int]));
                }
                return Err(e);
            },
        };
        let s = ComponentState { descriptor: p.descriptor, bytes };
        let ghost sv = s@;
        states.push((key, s));
        proof {
            assert(state_views(states@) =~= done.push((key, sv)));
            assert(settles(world@, t, t.writes[i as int], sv));
        }
        i = i + 1;
    }
    Ok(states)
}

fn settle_bytes<F: Fn(u64, u64) -> u64>(
    world: &ReferenceWorld<F>,
    key: &(EntityRef, ComponentTypeId),
    p: &PendingState,
    merge: bool,
    must: bool,
) -> (r: Result<Vec<u8>, Error>)
    requires
        total_merges(world@),
        must ==> merge,
    ensures
        match r {
            Err(e) => must && lacks_merge(world@, (*key, p@)) && e == spec_error(
                Status::SchemaUnsupported,
                5,
            ),
            Ok(b) => !(must && lacks_merge(world@, (*key, p@))) && match (
                get_at(world@.components, *key),
                get_at(world@.merges, p@.descriptor.type_id),
            ) {
                (Some(c), Some(f)) => if merge {
                    exists|r: u64|
                        #[trigger] call_ensures(
                            f,
                            (le_value(head(c.bytes)) as u64, le_value(head(p@.bytes)) as u64),
                            r,
                        ) && b@ == le_bytes(r as nat, p@.bytes.len())
                } else {
                    b@ == p@.bytes
                },
                _ => b@ == p@.bytes,
            },
        },
{
    if merge {
        match world.components.get(key) {
            None => {},
            Some(c) => {
                let a: u64 = value_from_bytes(&c.bytes);
                let b: u64 = value_from_bytes(&p.bytes);
                match world.merges.get(&p.descriptor.type_id) {
                    Some(rule) => {
                        proof {
                            lemma_get_from(world@.merges, p@.descriptor.type_id);
                        }
                        let v: u64 = (rule.merge)(a, b);
                        proof {
                            assert(a == le_value(head(c@.bytes)) as u64);
                            assert(b == le_value(head(p@.bytes)) as u64);
                            assert(call_ensures(rule@, (a, b), v));
                        }
                        return Ok(value_into_bytes(v, p.bytes.len()));
                    },
                    None => if must {
                        return Err(error(Status::SchemaUnsupported, 5));
                    },
                }
            },
        }
    }
    Ok(copy_bytes(&p.bytes))
}

proof fn lemma_get_from<K, V>(s: Seq<(K, V)>, key: K)
    ensures
        get_at(s, key) matches Some(v) ==> exists|i: int|
            0 <= i < s.len() && (#[trigger] s[i]).1 == v,
    decreases s.len(),
{
    if s.len() > 0 {
        if s[0].0 != key {
            lemma_get_from(s.drop_first(), key);
            if get_at(s, key) is Some {
                let rest = s.drop_first();
                let i = choose|i: int|
                    0 <= i < rest.len() && (#[trigger] rest[i]).1 == get_at(s, key)->0;
                assert(s[i + 1] == rest[i]);
            }
        } else {
            assert(s[0].1 == get_at(s, key)->0);
        }
    }
}

fn remove_entities(entities: &mut Table<EntityRef, Ownership>, gone: &Vec<EntityRef>)
    ensures
        final(entities)@ == without_entities(old(entities)@, gone@, gone@.len()),
{
    let ghost start = entities@;
    let mut i: usize = 0;
    while i < gone.len()
        invariant
            i <= gone.len(),
            entities@ == without_entities(start, gone@, i as nat),
        decreases gone.len() - i,
    {
        entities.remove(&gone[i]);
        i = i + 1;
    }
}

fn add_entities(entities: &mut Table<EntityRef, Ownership>, list: &Vec<EntityRef>, by: Ownership)
    ensures
        final(entities)@ == with_new(old(entities)@, list@, by, list@.len()),
{
    let ghost start = entities@;
    let mut i: usize = 0;
    while i < list.len()
        invariant
            i <= list.len(),
            entities@ == with_new(start, list@, by, i as nat),
        decreases list.len() - i,
    {
        entities.put(list[i], by);
        i = i + 1;
    }
}

fn remove_entity(
    components: &mut Table<(EntityRef, ComponentTypeId), ComponentState>,
    entity: EntityRef,
)
    ensures
        final(components)@ == without_entity(old(components)@, entity),
{
    let ghost before = components@;
    let mut i: usize = 0;
    proof {
        assert(before.skip(0) =~= before);
        assert(before.take(0) + without_entity(before.skip(0), entity) =~= without_entity(
            before,
            entity,
        ));
    }
    while i < components.entries.len()
        invariant
            i <= components.entries.len(),
            components@.len() == components.entries.len(),
            components@.take(i as int) + without_entity(components@.skip(i as int), entity)
                == without_entity(before, entity),
        decreases components.entries.len() - i,
    {
        let ghost now = components@;
        let ghost rest = now.skip(i as int);
        proof {
            assert(rest[0] == now[i as int]);
            assert(rest.drop_first() =~= now.skip(i + 1));
        }
        if components.entries[i].0.0 == entity {
            let _ = components.entries.remove(i);
            proof {
                assert(components@ =~= now.remove(i as int));
                assert(components@.take(i as int) =~= now.take(i as int));
                assert(components@.skip(i as int) =~= now.skip(i + 1));
            }
        } else {
            proof {
                assert(now.take(i as int) + (seq![rest[0]] + without_entity(
                    rest.drop_first(),
                    entity,
                )) =~= now.take(i + 1) + without_entity(now.skip(i + 1), entity));
            }
            i = i + 1;
        }
    }
    proof {
        assert(components@.skip(i as int) =~= Seq::<
            ((EntityRef, ComponentTypeId), StateView),
        >::empty());
        assert(components@.take(i as int) + Seq::<
            ((EntityRef, ComponentTypeId), StateView),
        >::empty() =~= components@);
    }
}

fn remove_components(
    components: &mut Table<(EntityRef, ComponentTypeId), ComponentState>,
    gone: &Vec<EntityRef>,
)
    ensures
        final(components)@ == without_components(old(components)@, gone@, gone@.len()),
{
    let ghost start = components@;
    let mut i: usize = 0;
    while i < gone.len()
        invariant
            i <= gone.len(),
            components@ == without_components(start, gone@, i as nat),
        decreases gone.len() - i,
    {
        remove_entity(components, gone[i]);
        i = i + 1;
    }
}

fn add_states(
    components: &mut Table<(EntityRef, ComponentTypeId), ComponentState>,
    states: Vec<((EntityRef, ComponentTypeId), ComponentState)>,
)
    ensures
        final(components)@ == with_states(
            old(components)@,
            state_views(states@),
            states@.len(),
        ),
{
    let ghost start = components@;
    let ghost all = state_views(states@);
    let ghost n = states@.len();
    let ghost mut k: nat = 0;
    let mut rest: Vec<((EntityRef, ComponentTypeId), ComponentState)> = states;
    while rest.len() > 0
        invariant
            k + rest.len() == n,
            n == all.len(),
            state_views(rest@) == all.skip(k as int),
            components@ == with_states(start, all, k),
        decreases rest.len(),
    {
        let ghost views = state_views(rest@);
        let (key, s): ((EntityRef, ComponentTypeId), ComponentState) = rest.remove(0);
        proof {
            assert(views[0] == (key, s@));
            assert(all[k as int] == views[0]);
            assert(state_views(rest@) =~= views.drop_first());
            assert(views.drop_first() =~= all.skip(k as int + 1));
            k = k + 1;
        }
        components.put(key, s);
    }
}

fn add_events(events: &mut Vec<WorldEvent>, list: &Vec<WorldEvent>, version: WorldVersion)
    ensures
        final(events)@ == old(events)@ + stamped(list@, version),
{
    let ghost start = events@;
    let mut i: usize = 0;
    while i < list.len()
        invariant
            i <= list.len(),
            events@ == start + stamped(list@, version).take(i as int),
        decreases list.len() - i,
    {
        let ghost before = events@;
        let e: WorldEvent = list[i];
        events.push(WorldEvent { world_version: version, kind: e.kind, payload: e.payload });
        proof {
            assert(stamped(list@, version).take(i + 1) =~= stamped(list@, version).take(
                i as int,
            ).push(stamped(list@, version)[i as int]));
            assert(events@ =~= start + stamped(list@, version).take(i + 1));
        }
        i = i + 1;
    }
    proof {
        assert(stamped(list@, version).take(list@.len() as int) =~= stamped(list@, version));
    }
}

/// A confirmed transfer advances the epoch once: a second confirmation gives the same
/// answer and leaves the world, its version included, as it is.
pub proof fn law_confirm_is_idempotent<F>(w: WorldView<F>, id: TransferId)
    requires
        confirmed(w, id).1 is Ok,
    ensures
        confirmed(confirmed(w, id).0, id) == confirmed(w, id),
{
    let p = get_at(w.transfers, id)->0;
    let o = confirmed(w, id).1->Ok_0;
    law_put_then_get(w.entities, p.entity, o, p.entity);
}

/// Once a transfer of an entity is prepared, another one of it is refused: as a conflict,
/// where nothing else is wrong with it.
pub proof fn law_prepared_blocks_others<F>(
    w: WorldView<F>,
    first: TransferProposal,
    second: TransferProposal,
)
    requires
        prepared(w, first) is Ok,
        second.entity == first.entity,
        second.id != first.id,
        get_at(w.transfers, second.id) is None,
    ensures
        prepared((WorldView { transfers: prepared(w, first)->Ok_0, ..w }), second) is Err,
        second.base_version == w.version && second.target != second.source.region && owner(
            w,
            second.entity,
        ) == Ok::<Ownership, Error>(second.source) ==> prepared(
            (WorldView { transfers: prepared(w, first)->Ok_0, ..w }),
            second,
        ) == Err::<Seq<(TransferId, TransferProposal)>, Error>(spec_error(Status::Conflict, 7)),
{
    let after = prepared(w, first)->Ok_0;
    if get_at(w.transfers, first.id) is None {
        law_put_then_get(w.transfers, first.id, first, first.id);
        law_put_then_get(w.transfers, first.id, first, second.id);
    }
    lemma_get_from(after, first.id);
    let i = choose|i: int| 0 <= i < after.len() && (#[trigger] after[i]).1 == first;
    assert(after[i].1.entity == second.entity);
}

proof fn lemma_new_get(
    entities: Seq<(EntityRef, Ownership)>,
    list: Seq<EntityRef>,
    by: Ownership,
    k: nat,
    entity: EntityRef,
)
    requires
        k <= list.len(),
    ensures
        get_at(with_new(entities, list, by, k), entity) == (if list.take(k as int).contains(
            entity,
        ) {
            Some(by)
        } else {
            get_at(entities, entity)
        }),
    decreases k,
{
    if k > 0 {
        let before = with_new(entities, list, by, (k - 1) as nat);
        lemma_new_get(entities, list, by, (k - 1) as nat, entity);
        law_put_then_get(before, list[k - 1], by, entity);
        lemma_take_contains(list, k, entity);
    }
}

proof fn lemma_take_contains(list: Seq<EntityRef>, k: nat, entity: EntityRef)
    requires
        0 < k <= list.len(),
    ensures
        list.take(k as int).contains(entity) == (list.take(k - 1).contains(entity) || list[k - 1]
            == entity),
{
    let a = list.take(k as int);
    let b = list.take(k - 1);
    if b.contains(entity) {
        let i = choose|i: int| 0 <= i < b.len() && b[i] == entity;
        assert(a[i] == entity);
    }
    if list[k - 1] == entity {
        assert(a[k - 1] == entity);
    }
    if a.contains(entity) {
        let i = choose|i: int| 0 <= i < a.len() && a[i] == entity;
        if i < k - 1 {
            assert(b[i] == entity);
        }
    }
}

proof fn lemma_gone_get(
    entities: Seq<(EntityRef, Ownership)>,
    gone: Seq<EntityRef>,
    k: nat,
    entity: EntityRef,
)
    requires
        k <= gone.len(),
    ensures
        get_at(without_entities(entities, gone, k), entity) == (if gone.take(k as int).contains(
            entity,
        ) {
            None
        } else {
            get_at(entities, entity)
        }),
    decreases k,
{
    if k > 0 {
        lemma_gone_get(entities, gone, (k - 1) as nat, entity);
        crate::table::law_drop_then_get(
            without_entities(entities, gone, (k - 1) as nat),
            gone[k - 1],
            entity,
        );
        lemma_take_contains(gone, k, entity);
    }
}

/// After a commit the created entities belong to the transaction's owner, the
/// destroyed ones are gone, and the others are as they were.
pub proof fn law_commit_entities<F>(
    w: WorldView<F>,
    t: TxnView,
    states: Seq<((EntityRef, ComponentTypeId), StateView)>,
    entity: EntityRef,
)
    ensures
        get_at(committed(w, t, states).entities, entity) == (if t.creates.contains(entity) {
            Some(t.options.ownership)
        } else if t.destroys.contains(entity) {
            None
        } else {
            get_at(w.entities, entity)
        }),
{
    let left = without_entities(w.entities, t.destroys, t.destroys.len());
    lemma_new_get(left, t.creates, t.options.ownership, t.creates.len(), entity);
    lemma_gone_get(w.entities, t.destroys, t.destroys.len(), entity);
    assert(t.creates.take(t.creates.len() as int) =~= t.creates);
    assert(t.destroys.take(t.destroys.len() as int) =~= t.destroys);
}

proof fn lemma_entity_gone(
    s: Seq<((EntityRef, ComponentTypeId), StateView)>,
    entity: EntityRef,
    key: (EntityRef, ComponentTypeId),
)
    ensures
        get_at(without_entity(s, entity), key) == (if key.0 == entity {
            None
        } else {
            get_at(s, key)
        }),
    decreases s.len(),
{
    if s.len() > 0 {
        lemma_entity_gone(s.drop_first(), entity, key);
        if s[0].0.0 != entity {
            let r = without_entity(s, entity);
            assert(r.drop_first() =~= without_entity(s.drop_first(), entity));
        }
    }
}

proof fn lemma_components_gone(
    s: Seq<((EntityRef, ComponentTypeId), StateView)>,
    gone: Seq<EntityRef>,
    k: nat,
    key: (EntityRef, ComponentTypeId),
)
    requires
        k <= gone.len(),
    ensures
        get_at(without_components(s, gone, k), key) == (if gone.take(k as int).contains(key.0) {
            None
        } else {
            get_at(s, key)
        }),
    decreases k,
{
    if k > 0 {
        lemma_components_gone(s, gone, (k - 1) as nat, key);
        lemma_entity_gone(without_components(s, gone, (k - 1) as nat), gone[k - 1], key);
        lemma_take_contains(gone, k, key.0);
    }
}

proof fn lemma_states_get(
    s: Seq<((EntityRef, ComponentTypeId), StateView)>,
    states: Seq<((EntityRef, ComponentTypeId), StateView)>,
    k: nat,
    key: (EntityRef, ComponentTypeId),
)
    requires
        k <= states.len(),
    ensures
        forall|i: int|
            0 <= i < k && (#[trigger] states[i]).0 == key && (forall|j: int|
                i < j < k ==> (#[trigger] states[j]).0 != key) ==> get_at(
                with_states(s, states, k),
                key,
            ) == Some(states[i].1),
        (forall|i: int| 0 <= i < k ==> (#[trigger] states[i]).0 != key) ==> get_at(
            with_states(s, states, k),
            key,
        ) == get_at(s, key),
    decreases k,
{
    if k > 0 {
        lemma_states_get(s, states, (k - 1) as nat, key);
        law_put_then_get(
            with_states(s, states, (k - 1) as nat),
            states[k - 1].0,
            states[k - 1].1,
            key,
        );
        assert(states[k - 1].0 == key || states[k - 1].0 != key);
    }
}

/// A committed write is read back.
pub proof fn law_commit_is_read_back<F>(
    w: WorldView<F>,
    t: TxnView,
    states: Seq<((EntityRef, ComponentTypeId), StateView)>,
    i: int,
)
    requires
        0 <= i < states.len(),
        forall|j: int| i < j < states.len() ==> (#[trigger] states[j]).0 != states[i].0,
    ensures
        get_at(committed(w, t, states).components, states[i].0) == Some(states[i].1),
{
    lemma_states_get(
        without_components(w.components, t.destroys, t.destroys.len()),
        states,
        states.len(),
        states[i].0,
    );
}

/// A component that a commit does not write is as it was, unless its entity is
/// destroyed: then it is gone.
pub proof fn law_commit_leaves_the_rest<F>(
    w: WorldView<F>,
    t: TxnView,
    states: Seq<((EntityRef, ComponentTypeId), StateView)>,
    key: (EntityRef, ComponentTypeId),
)
    requires
        forall|i: int| 0 <= i < states.len() ==> (#[trigger] states[i]).0 != key,
    ensures
        get_at(committed(w, t, states).components, key) == (if t.destroys.contains(key.0) {
            None
        } else {
            get_at(w.components, key)
        }),
{
    lemma_states_get(
        without_components(w.components, t.destroys, t.destroys.len()),
        states,
        states.len(),
        key,
    );
    lemma_components_gone(w.components, t.destroys, t.destroys.len(), key);
    assert(t.destroys.take(t.destroys.len() as int) =~= t.destroys);
}

/// A commit appends the events of its transaction, all with the new version, and
/// leaves the earlier ones as they are.
pub proof fn law_commit_appends_events<F>(
    w: WorldView<F>,
    t: TxnView,
    states: Seq<((EntityRef, ComponentTypeId), StateView)>,
    i: int,
)
    requires
        w.version.0 < u64::MAX,
        0 <= i < w.events.len() + t.events.len(),
    ensures
        committed(w, t, states).events.len() == w.events.len() + t.events.len(),
        i < w.events.len() ==> committed(w, t, states).events[i] == w.events[i],
        i >= w.events.len() ==> {
            let e = committed(w, t, states).events[i];
            let asked = t.events[i - w.events.len()];
            e.kind == asked.kind && e.payload == asked.payload && e.world_version.0 == w.version.0
                + 1
        },
{
}

/// Whether the tables of a world are in order: no key stands in one twice.
pub open spec fn tables_in_order<F>(w: WorldView<F>) -> bool {
    &&& in_order(w.entities)
    &&& in_order(w.components)
    &&& in_order(w.resource_refs)
    &&& in_order(w.merges)
    &&& in_order(w.schemas)
    &&& in_order(w.transfers)
}

proof fn lemma_entity_keeps_order(
    s: Seq<((EntityRef, ComponentTypeId), StateView)>,
    entity: EntityRef,
)
    requires
        in_order(s),
    ensures
        in_order(without_entity(s, entity)),
        forall|i: int|
            0 <= i < without_entity(s, entity).len() ==> s.contains(
                #[trigger] without_entity(s, entity)[i],
            ),
    decreases s.len(),
{
    if s.len() > 0 {
        let rest = s.drop_first();
        assert forall|i: int, j: int| 0 <= i < j < rest.len() implies (#[trigger] rest[i]).0.before(
            (#[trigger] rest[j]).0,
        ) by {
            assert(s[i + 1].0.before(s[j + 1].0));
        }
        lemma_entity_keeps_order(rest, entity);
        let kept = without_entity(rest, entity);
        let all = without_entity(s, entity);
        assert forall|i: int| 0 <= i < kept.len() implies s.contains(#[trigger] kept[i])
            && s[0].0.before(kept[i].0) by {
            let k = choose|k: int| 0 <= k < rest.len() && rest[k] == kept[i];
            assert(s[k + 1] == kept[i]);
            assert(s[0].0.before(s[k + 1].0));
        }
        if s[0].0.0 != entity {
            assert forall|i: int| 0 <= i < all.len() implies s.contains(#[trigger] all[i]) by {
                if i == 0 {
                    assert(s[0] == all[0]);
                } else {
                    assert(all[i] == kept[i - 1]);
                }
            }
            assert forall|i: int, j: int| 0 <= i < j < all.len() implies (
            #[trigger] all[i]).0.before((#[trigger] all[j]).0) by {
                assert(all[j] == kept[j - 1]);
                if i > 0 {
                    assert(all[i] == kept[i - 1]);
                }
            }
        }
    }
}

proof fn lemma_left_in_order(
    entities: Seq<(EntityRef, Ownership)>,
    components: Seq<((EntityRef, ComponentTypeId), StateView)>,
    gone: Seq<EntityRef>,
    k: nat,
)
    requires
        in_order(entities),
        in_order(components),
    ensures
        in_order(without_entities(entities, gone, k)),
        in_order(without_components(components, gone, k)),
    decreases k,
{
    if k > 0 && k <= gone.len() {
        lemma_left_in_order(entities, components, gone, (k - 1) as nat);
        law_drop_keeps_order(without_entities(entities, gone, (k - 1) as nat), gone[k - 1]);
        lemma_entity_keeps_order(
            without_components(components, gone, (k - 1) as nat),
            gone[k - 1],
        );
    }
}

proof fn lemma_new_in_order(
    entities: Seq<(EntityRef, Ownership)>,
    list: Seq<EntityRef>,
    by: Ownership,
    k: nat,
)
    requires
        in_order(entities),
    ensures
        in_order(with_new(entities, list, by, k)),
    decreases k,
{
    if k > 0 && k <= list.len() {
        lemma_new_in_order(entities, list, by, (k - 1) as nat);
        law_put_keeps_order(with_new(entities, list, by, (k - 1) as nat), list[k - 1], by);
    }
}

proof fn lemma_states_in_order(
    s: Seq<((EntityRef, ComponentTypeId), StateView)>,
    states: Seq<((EntityRef, ComponentTypeId), StateView)>,
    k: nat,
)
    requires
        in_order(s),
    ensures
        in_order(with_states(s, states, k)),
    decreases k,
{
    if k > 0 && k <= states.len() {
        lemma_states_in_order(s, states, (k - 1) as nat);
        law_put_keeps_order(
            with_states(s, states, (k - 1) as nat),
            states[k - 1].0,
            states[k - 1].1,
        );
    }
}

/// A commit keeps the tables of a world in order.
pub proof fn law_commit_keeps_order<F>(
    w: WorldView<F>,
    t: TxnView,
    states: Seq<((EntityRef, ComponentTypeId), StateView)>,
)
    requires
        tables_in_order(w),
    ensures
        tables_in_order(committed(w, t, states)),
{
    let n = t.destroys.len();
    lemma_left_in_order(w.entities, w.components, t.destroys, n);
    lemma_new_in_order(
        without_entities(w.entities, t.destroys, n),
        t.creates,
        t.options.ownership,
        t.creates.len(),
    );
    lemma_states_in_order(without_components(w.components, t.destroys, n), states, states.len());
}

/// Transfers keep the tables of a world in order, and so do references to resources and
/// merges.
pub proof fn law_transfers_keep_order<F>(
    w: WorldView<F>,
    p: TransferProposal,
    id: ResourceId,
    reference: ResourceRef,
    type_id: ComponentTypeId,
    f: F,
)
    requires
        tables_in_order(w),
    ensures
        prepared(w, p) matches Ok(transfers) ==> tables_in_order(WorldView { transfers, ..w }),
        tables_in_order(confirmed(w, p.id).0),
        in_order(put_at(w.resource_refs, id, reference)),
        in_order(put_at(w.merges, type_id, f)),
{
    law_put_keeps_order(w.transfers, p.id, p);
    law_put_keeps_order(w.resource_refs, id, reference);
    law_put_keeps_order(w.merges, type_id, f);
    if let Some(known) = get_at(w.transfers, p.id) {
        law_put_keeps_order(
            w.entities,
            known.entity,
            Ownership {
                region: known.target,
                epoch: OwnershipEpoch((known.source.epoch.0 + 1) as u64),
            },
        );
    }
}

/// Whether two transactions ask for the same, but for the order in which they create and
/// destroy.
pub open spec fn ask_alike(t: TxnView, u: TxnView) -> bool {
    &&& t.options == u.options
    &&& t.state == u.state
    &&& t.writes == u.writes
    &&& t.events == u.events
    &&& forall|e: EntityRef| #[trigger] t.creates.contains(e) == u.creates.contains(e)
    &&& forall|e: EntityRef| #[trigger] t.destroys.contains(e) == u.destroys.contains(e)
}

proof fn lemma_destroys_pass<F>(w: WorldView<F>, destroys: Seq<EntityRef>, by: Ownership)
    ensures
        destroys_fault(w, destroys, by) is None <==> forall|e: EntityRef| #[trigger]
            destroys.contains(e) ==> owner(w, e) == Ok::<Ownership, Error>(by),
    decreases destroys.len(),
{
    if destroys.len() > 0 {
        let rest = destroys.drop_first();
        lemma_destroys_pass(w, rest, by);
        assert(destroys.contains(destroys[0]));
        assert forall|e: EntityRef| #[trigger] destroys.contains(e) implies e == destroys[0]
            || rest.contains(e) by {
            let i = choose|i: int| 0 <= i < destroys.len() && destroys[i] == e;
            if i > 0 {
                assert(rest[i - 1] == e);
            }
        }
        assert forall|e: EntityRef| #[trigger] rest.contains(e) implies destroys.contains(e) by {
            let i = choose|i: int| 0 <= i < rest.len() && rest[i] == e;
            assert(destroys[i + 1] == e);
        }
    }
}

proof fn lemma_writes_alike<F>(
    w: WorldView<F>,
    a: Seq<EntityRef>,
    b: Seq<EntityRef>,
    writes: Seq<((EntityRef, ComponentTypeId), PendingView)>,
    by: Ownership,
)
    requires
        forall|e: EntityRef| #[trigger] a.contains(e) == b.contains(e),
    ensures
        writes_fault(w, a, writes, by) == writes_fault(w, b, writes, by),
    decreases writes.len(),
{
    if writes.len() > 0 {
        lemma_writes_alike(w, a, b, writes.drop_first(), by);
        assert(a.contains(writes[0].0.0) == b.contains(writes[0].0.0));
    }
}

/// The order in which a transaction creates and destroys entities is immaterial: whether
/// it commits, what its writes come to, and the world after it do not depend on it.
pub proof fn law_request_order_is_immaterial<F: Fn(u64, u64) -> u64>(
    w: WorldView<F>,
    t: TxnView,
    u: TxnView,
    states: Seq<((EntityRef, ComponentTypeId), StateView)>,
)
    requires
        tables_in_order(w),
        ask_alike(t, u),
    ensures
        commit_fault(w, t) is None <==> commit_fault(w, u) is None,
        all_settle(w, t, states) <==> all_settle(w, u, states),
        committed(w, t, states) == committed(w, u, states),
{
    let by = t.options.ownership;
    lemma_destroys_pass(w, t.destroys, by);
    lemma_destroys_pass(w, u.destroys, by);
    assert forall|e: EntityRef| #[trigger] u.destroys.contains(e) implies t.destroys.contains(
        e,
    ) by {}
    lemma_writes_alike(w, t.creates, u.creates, t.writes, by);
    assert forall|i: int| 0 <= i < states.len() implies settles(
        w,
        t,
        t.writes[i],
        (#[trigger] states[i]).1,
    ) == settles(w, u, u.writes[i], states[i].1) by {}
    let (a, b) = (committed(w, t, states), committed(w, u, states));
    law_commit_keeps_order(w, t, states);
    law_commit_keeps_order(w, u, states);
    assert forall|e: EntityRef| #[trigger] get_at(a.entities, e) == get_at(b.entities, e) by {
        law_commit_entities(w, t, states, e);
        law_commit_entities(w, u, states, e);
        assert(t.creates.contains(e) == u.creates.contains(e));
        assert(t.destroys.contains(e) == u.destroys.contains(e));
    }
    law_order_fixes_table(a.entities, b.entities);
    let left = without_components(w.components, t.destroys, t.destroys.len());
    let other = without_components(w.components, u.destroys, u.destroys.len());
    lemma_left_in_order(w.entities, w.components, t.destroys, t.destroys.len());
    lemma_left_in_order(w.entities, w.components, u.destroys, u.destroys.len());
    assert(t.destroys.take(t.destroys.len() as int) =~= t.destroys);
    assert(u.destroys.take(u.destroys.len() as int) =~= u.destroys);
    assert forall|key: (EntityRef, ComponentTypeId)| #[trigger] get_at(left, key) == get_at(
        other,
        key,
    ) by {
        lemma_components_gone(w.components, t.destroys, t.destroys.len(), key);
        lemma_components_gone(w.components, u.destroys, u.destroys.len(), key);
        assert(t.destroys.contains(key.0) == u.destroys.contains(key.0));
    }
    law_order_fixes_table(left, other);
}

/// Whether every registered merge has one result for two values.
pub open spec fn merges_are_functions<F: Fn(u64, u64) -> u64>(w: WorldView<F>) -> bool {
    forall|i: int, a: u64, b: u64, r: u64, s: u64|
        0 <= i < w.merges.len() && #[trigger] call_ensures(w.merges[i].1, (a, b), r)
            && #[trigger] call_ensures(w.merges[i].1, (a, b), s) ==> r == s
}

/// What the writes of a transaction come to is fixed, where no merge takes part or every
/// merge is a function of the two values.
pub proof fn law_settled_states_are_fixed<F: Fn(u64, u64) -> u64>(
    w: WorldView<F>,
    t: TxnView,
    a: Seq<((EntityRef, ComponentTypeId), StateView)>,
    b: Seq<((EntityRef, ComponentTypeId), StateView)>,
)
    requires
        !merging(w, t) || merges_are_functions(w),
        all_settle(w, t, a),
        all_settle(w, t, b),
    ensures
        a == b,
{
    assert forall|i: int| 0 <= i < a.len() implies a[i] == b[i] by {
        let write = t.writes[i];
        assert(a[i].0 == write.0 && settles(w, t, write, a[i].1));
        assert(b[i].0 == write.0 && settles(w, t, write, b[i].1));
        if merging(w, t) {
            lemma_get_from(w.merges, write.1.descriptor.type_id);
            if let (Some(c), Some(f)) = (
                get_at(w.components, write.0),
                get_at(w.merges, write.1.descriptor.type_id),
            ) {
                let k = choose|k: int| 0 <= k < w.merges.len() && (#[trigger] w.merges[k]).1 == f;
                let x = le_value(head(c.bytes)) as u64;
                let y = le_value(head(write.1.bytes)) as u64;
                let r = choose|r: u64|
                    #[trigger] call_ensures(f, (x, y), r) && a[i].1.bytes == le_bytes(
                        r as nat,
                        write.1.bytes.len(),
                    );
                let s = choose|s: u64|
                    #[trigger] call_ensures(f, (x, y), s) && b[i].1.bytes == le_bytes(
                        s as nat,
                        write.1.bytes.len(),
                    );
                assert(call_ensures(w.merges[k].1, (x, y), r));
                assert(call_ensures(w.merges[k].1, (x, y), s));
            }
        }
    }
    assert(a =~= b);
}

/// Two transactions that ask for the same, but for the order in which they create and
/// destroy, lead equal worlds to equal worlds.
pub proof fn law_alike_transactions_commit_alike<F: Fn(u64, u64) -> u64>(
    w: WorldView<F>,
    t: TxnView,
    u: TxnView,
    a: Seq<((EntityRef, ComponentTypeId), StateView)>,
    b: Seq<((EntityRef, ComponentTypeId), StateView)>,
)
    requires
        tables_in_order(w),
        !merging(w, t) || merges_are_functions(w),
        ask_alike(t, u),
        all_settle(w, t, a),
        all_settle(w, u, b),
    ensures
        committed(w, t, a) == committed(w, u, b),
{
    law_request_order_is_immaterial(w, t, u, b);
    law_settled_states_are_fixed(w, t, a, b);
}

/// A stale base under the rejecting policy fails, whatever was asked for.
pub proof fn law_stale_base_is_rejected<F>(w: WorldView<F>, t: TxnView)
    requires
        t.options.base_version != w.version,
        t.options.policy == ConflictPolicy::Reject,
    ensures
        commit_fault(w, t) is Some,
{
}

/// A registered schema stays: no later registration changes it.
pub proof fn law_registered_schema_stays(
    known: Seq<(ComponentTypeId, Schema)>,
    schemas: Seq<Schema>,
    conflict: Error,
    type_id: ComponentTypeId,
)
    requires
        get_at(known, type_id) is Some,
    ensures
        get_at(registered(known, schemas, conflict).0, type_id) == get_at(known, type_id),
    decreases schemas.len(),
{
    if schemas.len() > 0 {
        let s = schemas[0];
        let rest = schemas.drop_first();
        match get_at(known, s.type_id) {
            Some(k) => if k.hash@ == s.hash@ {
                law_registered_schema_stays(known, rest, conflict, type_id);
            },
            None => {
                law_put_then_get(known, s.type_id, s, type_id);
                law_registered_schema_stays(
                    put_at(known, s.type_id, s),
                    rest,
                    conflict,
                    type_id,
                );
            },
        }
    }
}

/// After a registration that succeeds, every one of its types has a schema of the hash
/// that was registered.
pub proof fn law_registration_is_read_back(
    known: Seq<(ComponentTypeId, Schema)>,
    schemas: Seq<Schema>,
    conflict: Error,
    i: int,
)
    requires
        registered(known, schemas, conflict).1 is Ok,
        0 <= i < schemas.len(),
    ensures
        get_at(registered(known, schemas, conflict).0, schemas[i].type_id) matches Some(k)
            && k.hash@ == schemas[i].hash@,
    decreases schemas.len(),
{
    let s = schemas[0];
    let rest = schemas.drop_first();
    let next = if get_at(known, s.type_id) is Some {
        known
    } else {
        put_at(known, s.type_id, s)
    };
    law_put_then_get(known, s.type_id, s, s.type_id);
    if i == 0 {
        law_registered_schema_stays(next, rest, conflict, s.type_id);
    } else {
        assert(rest[i - 1] == schemas[i]);
        law_registration_is_read_back(next, rest, conflict, i - 1);
    }
}

proof fn lemma_known_register(
    known: Seq<(ComponentTypeId, Schema)>,
    schemas: Seq<Schema>,
    conflict: Error,
)
    requires
        forall|i: int|
            0 <= i < schemas.len() ==> (get_at(
                known,
                (#[trigger] schemas[i]).type_id,
            ) matches Some(k) && k.hash@ == schemas[i].hash@),
    ensures
        registered(known, schemas, conflict) == (known, Ok::<(), Error>(())),
    decreases schemas.len(),
{
    if schemas.len() > 0 {
        let rest = schemas.drop_first();
        assert(schemas[0] == schemas[0]);
        assert forall|i: int| 0 <= i < rest.len() implies (get_at(
            known,
            (#[trigger] rest[i]).type_id,
        ) matches Some(k) && k.hash@ == rest[i].hash@) by {
            assert(rest[i] == schemas[i + 1]);
        }
        lemma_known_register(known, rest, conflict);
    }
}

/// Registration is idempotent: what was registered can be registered again, and changes
/// nothing.
pub proof fn law_registration_is_idempotent(
    known: Seq<(ComponentTypeId, Schema)>,
    schemas: Seq<Schema>,
    conflict: Error,
)
    requires
        registered(known, schemas, conflict).1 is Ok,
    ensures
        registered(registered(known, schemas, conflict).0, schemas, conflict) == registered(
            known,
            schemas,
            conflict,
        ),
{
    let after = registered(known, schemas, conflict).0;
    assert forall|i: int| 0 <= i < schemas.len() implies (get_at(
        after,
        (#[trigger] schemas[i]).type_id,
    ) matches Some(k) && k.hash@ == schemas[i].hash@) by {
        law_registration_is_read_back(known, schemas, conflict, i);
    }
    lemma_known_register(after, schemas, conflict);
    assert(registered(known, schemas, conflict).1->Ok_0 == ());
}

/// A registration that gives a known type another hash fails, whatever stands before or
/// behind it.
pub proof fn law_conflicting_schema_is_refused(
    known: Seq<(ComponentTypeId, Schema)>,
    schemas: Seq<Schema>,
    conflict: Error,
    i: int,
)
    requires
        0 <= i < schemas.len(),
        get_at(known, schemas[i].type_id) matches Some(k) && k.hash@ != schemas[i].hash@,
    ensures
        registered(known, schemas, conflict).1 == Err::<(), Error>(conflict),
    decreases schemas.len(),
{
    let s = schemas[0];
    let rest = schemas.drop_first();
    if i > 0 {
        assert(rest[i - 1] == schemas[i]);
        if get_at(known, s.type_id) is None {
            law_put_then_get(known, s.type_id, s, schemas[i].type_id);
            law_conflicting_schema_is_refused(
                put_at(known, s.type_id, s),
                rest,
                conflict,
                i - 1,
            );
        } else {
            law_conflicting_schema_is_refused(known, rest, conflict, i - 1);
        }
    }
}

/// Registration keeps the schemas in order.
pub proof fn law_registration_keeps_order(
    known: Seq<(ComponentTypeId, Schema)>,
    schemas: Seq<Schema>,
    conflict: Error,
)
    requires
        in_order(known),
    ensures
        in_order(registered(known, schemas, conflict).0),
    decreases schemas.len(),
{
    if schemas.len() > 0 {
        let s = schemas[0];
        law_put_keeps_order(known, s.type_id, s);
        law_registration_keeps_order(known, schemas.drop_first(), conflict);
        law_registration_keeps_order(
            put_at(known, s.type_id, s),
            schemas.drop_first(),
            conflict,
        );
    }
}

/// A write that is accepted for a type with a schema has the hash and the size of that
/// schema, in its descriptor and in its bytes.
pub proof fn law_accepted_write_conforms<F>(
    w: WorldView<F>,
    t: TxnView,
    entity: EntityRef,
    descriptor: ComponentDescriptor,
    checks: DescriptorChecks,
    bytes: Seq<u8>,
)
    requires
        put_fault(w, t, entity, descriptor, checks, bytes) is None,
        get_at(w.schemas, descriptor.type_id) is Some,
    ensures
        conforms(descriptor, get_at(w.schemas, descriptor.type_id)->0),
        bytes.len() == (get_at(w.schemas, descriptor.type_id)->0).size,
{
}

/// The number that the leading bytes of a value hold.
pub open spec fn number(bytes: Seq<u8>) -> u64 {
    le_value(head(bytes)) as u64
}

/// Under the merging policies a write on a stale base does not replace a value that was
/// committed meanwhile: where its type has a registered merge, what stays is the merge of
/// the committed number and the written one, at the length of the write.
pub proof fn law_stale_merge_combines_values<F: Fn(u64, u64) -> u64>(
    w: WorldView<F>,
    t: TxnView,
    states: Seq<((EntityRef, ComponentTypeId), StateView)>,
    i: int,
    committed_value: StateView,
    f: F,
)
    requires
        all_settle(w, t, states),
        in_order(t.writes),
        t.options.base_version != w.version,
        t.options.policy == ConflictPolicy::Merge || t.options.policy
            == ConflictPolicy::CommutativeMerge,
        0 <= i < t.writes.len(),
        get_at(w.components, t.writes[i].0) == Some(committed_value),
        get_at(w.merges, t.writes[i].1.descriptor.type_id) == Some(f),
    ensures
        get_at(committed(w, t, states).components, t.writes[i].0) matches Some(s) && s.descriptor
            == t.writes[i].1.descriptor && exists|r: u64|
            #[trigger] call_ensures(
                f,
                (number(committed_value.bytes), number(t.writes[i].1.bytes)),
                r,
            ) && s.bytes == le_bytes(r as nat, t.writes[i].1.bytes.len()),
{
    lemma_written_once(w, t, states, i);
    let s = states[i].1;
    let write = t.writes[i];
    assert(settles(w, t, write, s));
    let r = choose|r: u64|
        #[trigger] call_ensures(
            f,
            (
                le_value(head(committed_value.bytes)) as u64,
                le_value(head(write.1.bytes)) as u64,
            ),
            r,
        ) && s.bytes == le_bytes(r as nat, write.1.bytes.len());
    assert(call_ensures(f, (number(committed_value.bytes), number(write.1.bytes)), r));
}

proof fn lemma_written_once<F: Fn(u64, u64) -> u64>(
    w: WorldView<F>,
    t: TxnView,
    states: Seq<((EntityRef, ComponentTypeId), StateView)>,
    i: int,
)
    requires
        all_settle(w, t, states),
        in_order(t.writes),
        0 <= i < t.writes.len(),
    ensures
        get_at(committed(w, t, states).components, t.writes[i].0) == Some(states[i].1),
        settles(w, t, t.writes[i], states[i].1),
{
    assert(states[i].0 == t.writes[i].0);
    assert forall|j: int| i < j < states.len() implies (#[trigger] states[j]).0
        != states[i].0 by {
        assert(states[j].0 == t.writes[j].0);
        assert(t.writes[i].0.before(t.writes[j].0));
        <(EntityRef, ComponentTypeId)>::lemma_strict(t.writes[i].0);
    }
    law_commit_is_read_back(w, t, states, i);
}

/// A write takes effect as it stands where nothing is merged: on a current base, under a
/// policy that does not merge, over no committed value, and for a type without a merge.
pub proof fn law_unmerged_write_stands<F: Fn(u64, u64) -> u64>(
    w: WorldView<F>,
    t: TxnView,
    states: Seq<((EntityRef, ComponentTypeId), StateView)>,
    i: int,
)
    requires
        all_settle(w, t, states),
        in_order(t.writes),
        0 <= i < t.writes.len(),
        t.options.base_version == w.version || t.options.policy
            == ConflictPolicy::LastWriterByPriority || t.options.policy == ConflictPolicy::Reject
            || get_at(w.components, t.writes[i].0) is None || get_at(
            w.merges,
            t.writes[i].1.descriptor.type_id,
        ) is None,
    ensures
        get_at(committed(w, t, states).components, t.writes[i].0) == Some(
            StateView {
                descriptor: t.writes[i].1.descriptor,
                bytes: t.writes[i].1.bytes,
            },
        ),
{
    lemma_written_once(w, t, states, i);
}

proof fn lemma_destroys_owned<F>(w: WorldView<F>, destroys: Seq<EntityRef>, by: Ownership)
    ensures
        destroys_fault(w, destroys, by) is None <==> forall|i: int|
            0 <= i < destroys.len() ==> get_at(w.entities, #[trigger] destroys[i]) == Some(by),
    decreases destroys.len(),
{
    if destroys.len() > 0 {
        let rest = destroys.drop_first();
        lemma_destroys_owned(w, rest, by);
        let owned = |list: Seq<EntityRef>|
            forall|i: int|
                0 <= i < list.len() ==> get_at(w.entities, #[trigger] list[i]) == Some(by);
        if owned(rest) && get_at(w.entities, destroys[0]) == Some(by) {
            assert forall|i: int| 0 <= i < destroys.len() implies get_at(
                w.entities,
                #[trigger] destroys[i],
            ) == Some(by) by {
                if i > 0 {
                    assert(rest[i - 1] == destroys[i]);
                }
            }
        }
        if owned(destroys) {
            assert forall|i: int| 0 <= i < rest.len() implies get_at(
                w.entities,
                #[trigger] rest[i],
            ) == Some(by) by {
                assert(destroys[i + 1] == rest[i]);
            }
            assert(get_at(w.entities, destroys[0]) == Some(by));
        }
    }
}

/// Whether a write may be committed by an owner: its descriptor is in order, and its
/// entity is new or belongs to that owner.
pub open spec fn write_allowed<F>(
    w: WorldView<F>,
    creates: Seq<EntityRef>,
    write: ((EntityRef, ComponentTypeId), PendingView),
    by: Ownership,
) -> bool {
    write.1.base is None && (creates.contains(write.0.0) || get_at(w.entities, write.0.0) == Some(
        by,
    ))
}

proof fn lemma_writes_owned<F>(
    w: WorldView<F>,
    creates: Seq<EntityRef>,
    writes: Seq<((EntityRef, ComponentTypeId), PendingView)>,
    by: Ownership,
)
    ensures
        writes_fault(w, creates, writes, by) is None <==> forall|i: int|
            0 <= i < writes.len() ==> write_allowed(w, creates, #[trigger] writes[i], by),
    decreases writes.len(),
{
    if writes.len() > 0 {
        let rest = writes.drop_first();
        lemma_writes_owned(w, creates, rest, by);
        if writes_fault(w, creates, writes, by) is None {
            assert forall|i: int| 0 <= i < writes.len() implies write_allowed(
                w,
                creates,
                #[trigger] writes[i],
                by,
            ) by {
                if i > 0 {
                    assert(rest[i - 1] == writes[i]);
                }
            }
        } else {
            if forall|i: int|
                0 <= i < writes.len() ==> write_allowed(w, creates, #[trigger] writes[i], by) {
                assert(write_allowed(w, creates, writes[0], by));
                assert forall|i: int| 0 <= i < rest.len() implies write_allowed(
                    w,
                    creates,
                    #[trigger] rest[i],
                    by,
                ) by {
                    assert(writes[i + 1] == rest[i]);
                }
            }
        }
    }
}

/// When a commit succeeds: the transaction is open, everything that it destroys or writes
/// belongs to its owner or is created by it, and the base is current or the policy copes
/// with a stale one. Rejecting copes with none; the strict merge wants a registered merge
/// for every write that meets a committed value.
pub proof fn law_commit_succeeds<F>(w: WorldView<F>, t: TxnView)
    ensures
        commit_fault(w, t) is None <==> {
            &&& t.state == TxnState::Open
            &&& forall|i: int|
                0 <= i < t.destroys.len() ==> get_at(w.entities, #[trigger] t.destroys[i]) == Some(
                    t.options.ownership,
                )
            &&& forall|i: int|
                0 <= i < t.writes.len() ==> write_allowed(
                    w,
                    t.creates,
                    #[trigger] t.writes[i],
                    t.options.ownership,
                )
            &&& t.options.base_version == w.version || match t.options.policy {
                ConflictPolicy::Reject => false,
                ConflictPolicy::LastWriterByPriority => true,
                ConflictPolicy::Merge => true,
                ConflictPolicy::CommutativeMerge => forall|i: int|
                    0 <= i < t.writes.len() && get_at(
                        w.components,
                        (#[trigger] t.writes[i]).0,
                    ) is Some ==> get_at(w.merges, t.writes[i].1.descriptor.type_id) is Some,
            }
        },
{
    lemma_destroys_owned(w, t.destroys, t.options.ownership);
    lemma_writes_owned(w, t.creates, t.writes, t.options.ownership);
    if exists|i: int| 0 <= i < t.writes.len() && lacks_merge(w, #[trigger] t.writes[i]) {
        let i = choose|i: int| 0 <= i < t.writes.len() && lacks_merge(w, #[trigger] t.writes[i]);
        assert(get_at(w.components, t.writes[i].0) is Some);
    } else {
        assert forall|i: int|
            0 <= i < t.writes.len() && get_at(
                w.components,
                (#[trigger] t.writes[i]).0,
            ) is Some implies get_at(w.merges, t.writes[i].1.descriptor.type_id) is Some by {
            assert(!lacks_merge(w, t.writes[i]));
        }
    }
}

/// Which error a stale base gives, where nothing else is wrong: a conflict under the
/// rejecting policy, and under the strict merge an unsupported schema where a merge is
/// missing.
pub proof fn law_stale_base_errors<F>(w: WorldView<F>, t: TxnView)
    requires
        t.state == TxnState::Open,
        t.options.base_version != w.version,
        forall|i: int|
            0 <= i < t.destroys.len() ==> get_at(w.entities, #[trigger] t.destroys[i]) == Some(
                t.options.ownership,
            ),
        forall|i: int|
            0 <= i < t.writes.len() ==> write_allowed(
                w,
                t.creates,
                #[trigger] t.writes[i],
                t.options.ownership,
            ),
    ensures
        t.options.policy == ConflictPolicy::Reject ==> (commit_fault(w, t) matches Some(e)
            && e.status == Status::Conflict && e.detail == 4),
        t.options.policy == ConflictPolicy::CommutativeMerge ==> forall|i: int|
            0 <= i < t.writes.len() && get_at(w.components, (#[trigger] t.writes[i]).0) is Some
                && get_at(w.merges, t.writes[i].1.descriptor.type_id) is None ==> (commit_fault(
                w,
                t,
            ) matches Some(e) && e.status == Status::SchemaUnsupported && e.detail == 5),
{
    lemma_destroys_owned(w, t.destroys, t.options.ownership);
    lemma_writes_owned(w, t.creates, t.writes, t.options.ownership);
    assert forall|i: int|
        t.options.policy == ConflictPolicy::CommutativeMerge && 0 <= i < t.writes.len() && get_at(
            w.components,
            (#[trigger] t.writes[i]).0,
        ) is Some && get_at(w.merges, t.writes[i].1.descriptor.type_id) is None implies (
    commit_fault(w, t) matches Some(e) && e.status == Status::SchemaUnsupported && e.detail
        == 5) by {
        assert(lacks_merge(w, t.writes[i]));
    }
}

/// A commit makes the next version, and touches neither the identity, the clock, the
/// resources, the merges, the schemas nor the transfers of the world.
pub proof fn law_commit_makes_the_next_version<F>(
    w: WorldView<F>,
    t: TxnView,
    states: Seq<((EntityRef, ComponentTypeId), StateView)>,
)
    requires
        w.version.0 < u64::MAX,
    ensures
        committed(w, t, states).version.0 == w.version.0 + 1,
        committed(w, t, states).id == w.id,
        committed(w, t, states).sim_time == w.sim_time,
        committed(w, t, states).resource_refs == w.resource_refs,
        committed(w, t, states).merges == w.merges,
        committed(w, t, states).schemas == w.schemas,
        committed(w, t, states).transfers == w.transfers,
{
}

} // verus!
