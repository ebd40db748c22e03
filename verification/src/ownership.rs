//! Ownership of entities that moves between regions.
//!
//! A transfer is proposed by the source, reserved by the target, frozen, installed
//! at the target and released by the source. The target owns nothing before its
//! install, every step can be repeated, and a command with an old epoch is refused.

use crate::api::{
    error, spec_error, EntityId, Error, Hash256, RegionId, Status, TransferId, WorldVersion,
};
use crate::bytes::{le_bytes, push_hash};
use crate::table::{
    drop_at, get_at, in_order, law_drop_keeps_order, law_drop_then_get, law_put_keeps_order,
    law_put_then_get, law_set_keeps_order, law_set_then_get, lemma_place, lemma_put_then_set,
    place_at, put_at, set_at, Ordered, Table,
};
use vstd::prelude::*;

verus! {

impl Ordered for EntityId {
    open spec fn before(self, other: Self) -> bool {
        self.0 < other.0
    }

    fn is_before(&self, other: &Self) -> (r: bool) {
        self.0 < other.0
    }

    fn is_same(&self, other: &Self) -> (r: bool) {
        *self == *other
    }

    proof fn lemma_strict(a: Self) {
    }

    proof fn lemma_chained(a: Self, b: Self, c: Self) {
    }

    proof fn lemma_total(a: Self, b: Self) {
    }
}

impl Ordered for RegionId {
    open spec fn before(self, other: Self) -> bool {
        self.0 < other.0
    }

    fn is_before(&self, other: &Self) -> (r: bool) {
        self.0 < other.0
    }

    fn is_same(&self, other: &Self) -> (r: bool) {
        *self == *other
    }

    proof fn lemma_strict(a: Self) {
    }

    proof fn lemma_chained(a: Self, b: Self, c: Self) {
    }

    proof fn lemma_total(a: Self, b: Self) {
    }
}

impl View for TransferId {
    type V = TransferId;

    open spec fn view(&self) -> TransferId {
        *self
    }
}

/// Who owns an entity, since which epoch, and at which version of the world.
#[derive(Clone, Copy, Debug, PartialEq, Eq, Structural)]
pub struct OwnershipRecord {
    pub entity: EntityId,
    pub generation: u32,
    pub owner_region: RegionId,
    pub epoch: u64,
    pub world_version: WorldVersion,
}

impl View for OwnershipRecord {
    type V = OwnershipRecord;

    open spec fn view(&self) -> OwnershipRecord {
        *self
    }
}

/// The states of a transfer.
#[derive(Clone, Copy, Debug, PartialEq, Eq, Structural)]
pub enum TransferState {
    Owned,
    PrepareTransfer,
    Frozen,
    Installing,
}

/// A message of the transfer protocol.
#[derive(Clone, Copy, Debug)]
pub struct TransferMessage {
    pub transfer_id: TransferId,
    pub entity: EntityId,
    pub generation: u32,
    pub source: RegionId,
    pub target: RegionId,
    pub expected_epoch: u64,
    pub base_version: WorldVersion,
    pub schema_hash: Hash256,
    pub payload_hash: Hash256,
}

impl View for TransferMessage {
    type V = TransferMessage;

    open spec fn view(&self) -> TransferMessage {
        *self
    }
}

/// The bytes of a message whose digest identifies it: the integers lowest byte
/// first, then the two digests.
pub open spec fn message_bytes(m: TransferMessage) -> Seq<u8> {
    le_bytes(m.transfer_id.0 as nat, 16) + le_bytes(m.entity.0 as nat, 16) + le_bytes(
        m.generation as nat,
        4,
    ) + le_bytes(m.source.0 as nat, 8) + le_bytes(m.target.0 as nat, 8) + le_bytes(
        m.expected_epoch as nat,
        8,
    ) + le_bytes(m.base_version.0 as nat, 8) + m.schema_hash@ + m.payload_hash@
}

fn push_le(out: &mut Vec<u8>, value: u128, len: usize)
    ensures
        final(out)@ == old(out)@ + le_bytes(value as nat, len as nat),
{
    let ghost start = out@;
    let mut rest: u128 = value;
    let mut i: usize = 0;
    while i < len
        invariant
            i <= len,
            out@ + le_bytes(rest as nat, (len - i) as nat) == start + le_bytes(
                value as nat,
                len as nat,
            ),
        decreases len - i,
    {
        let ghost before = out@;
        let b: u8 = (rest % 256) as u8;
        out.push(b);
        proof {
            assert(out@ + le_bytes((rest / 256) as nat, (len - i - 1) as nat) =~= before + (seq![b]
                + le_bytes((rest / 256) as nat, (len - i - 1) as nat)));
        }
        rest = rest / 256;
        i = i + 1;
    }
    proof {
        assert(out@ + Seq::<u8>::empty() =~= out@);
    }
}

impl TransferMessage {
    /// The bytes whose digest identifies the message.
    pub fn encoded(&self) -> (r: Vec<u8>)
        ensures
            r@ == message_bytes(*self),
    {
        let mut out: Vec<u8> = Vec::new();
        push_le(&mut out, self.transfer_id.0, 16);
        proof {
            assert(out@ =~= le_bytes(self.transfer_id.0 as nat, 16));
        }
        push_le(&mut out, self.entity.0, 16);
        push_le(&mut out, self.generation as u128, 4);
        push_le(&mut out, self.source.0 as u128, 8);
        push_le(&mut out, self.target.0 as u128, 8);
        push_le(&mut out, self.expected_epoch as u128, 8);
        push_le(&mut out, self.base_version.0 as u128, 8);
        push_hash(&mut out, &self.schema_hash);
        push_hash(&mut out, &self.payload_hash);
        out
    }
}

/// What one region owns, and the transfers it takes part in.
#[derive(Debug)]
pub struct RegionState {
    pub region: RegionId,
    pub records: Table<EntityId, OwnershipRecord>,
    /// For each entity in transfer, the transfer.
    pub pending: Table<EntityId, TransferId>,
}

/// The mathematical value of a [`RegionState`].
pub struct RegionView {
    pub region: RegionId,
    pub records: Seq<(EntityId, OwnershipRecord)>,
    pub pending: Seq<(EntityId, TransferId)>,
}

impl View for RegionState {
    type V = RegionView;

    open spec fn view(&self) -> RegionView {
        RegionView {
            region: self.region,
            records: self.records@,
            pending: self.pending@,
        }
    }
}

/// A region that owns nothing.
pub open spec fn fresh_region(region: RegionId) -> RegionView {
    RegionView { region, records: Seq::empty(), pending: Seq::empty() }
}

impl RegionState {
    /// A region that owns nothing.
    pub fn new(region: RegionId) -> (r: RegionState)
        ensures
            r@ == fresh_region(region),
    {
        RegionState { region, records: Table::new(), pending: Table::new() }
    }

    /// The record of an entity.
    pub fn owner_of(&self, entity: EntityId) -> (r: Option<&OwnershipRecord>)
        ensures
            get_at(self@.records, entity) == (match r {
                Some(o) => Some(*o),
                None => None,
            }),
    {
        self.records.get(&entity)
    }

    /// Makes the region the first owner of an entity.
    pub fn claim(&mut self, entity: EntityId, generation: u32, world_version: WorldVersion)
        ensures
            final(self)@ == (RegionView {
                records: put_at(
                    old(self)@.records,
                    entity,
                    OwnershipRecord {
                        entity,
                        generation,
                        owner_region: old(self)@.region,
                        epoch: 1,
                        world_version,
                    },
                ),
                ..old(self)@
            }),
    {
        let record = OwnershipRecord {
            entity,
            generation,
            owner_region: self.region,
            epoch: 1,
            world_version,
        };
        self.records.put(entity, record);
    }
}

/// The regions and the transfers between them.
#[derive(Debug)]
pub struct OwnershipMachine {
    pub regions: Table<RegionId, RegionState>,
    pub transfers: Table<TransferId, TransferMessage>,
    /// The epochs of the installs that were accepted.
    pub confirmed: Table<TransferId, u64>,
}

/// The mathematical value of an [`OwnershipMachine`].
pub struct MachineView {
    pub regions: Seq<(RegionId, RegionView)>,
    pub transfers: Seq<(TransferId, TransferMessage)>,
    pub confirmed: Seq<(TransferId, u64)>,
}

impl View for OwnershipMachine {
    type V = MachineView;

    open spec fn view(&self) -> MachineView {
        MachineView {
            regions: self.regions@,
            transfers: self.transfers@,
            confirmed: self.confirmed@,
        }
    }
}

/// Whether every transfer runs between two different regions and its source is known.
pub open spec fn sound(m: MachineView) -> bool {
    forall|id: TransferId|
        (#[trigger] get_at(m.transfers, id)) matches Some(t) ==> t.source != t.target && get_at(
            m.regions,
            t.source,
        ) is Some
}

/// The outcome of a proposal: an error, or the machine afterwards. The message that
/// came first under a transfer id stays: a later one changes nothing.
pub open spec fn proposed(m: MachineView, msg: TransferMessage) -> Result<MachineView, Error> {
    if msg.source == msg.target {
        Err(spec_error(Status::Invalid, 1))
    } else {
        match get_at(m.regions, msg.source) {
            None => Err(spec_error(Status::HandleStale, 1)),
            Some(source) => match get_at(source.records, msg.entity) {
                None => Err(spec_error(Status::HandleStale, 2)),
                Some(record) => if record.epoch != msg.expected_epoch {
                    Err(spec_error(Status::OwnershipStale, 1))
                } else if msg.base_version != record.world_version {
                    Err(spec_error(Status::OwnershipStale, 2))
                } else if get_at(m.transfers, msg.transfer_id) is Some {
                    Ok(m)
                } else {
                    let source = RegionView {
                        pending: put_at(source.pending, msg.entity, msg.transfer_id),
                        ..source
                    };
                    Ok(
                        MachineView {
                            transfers: put_at(m.transfers, msg.transfer_id, msg),
                            regions: set_at(m.regions, msg.source, source),
                            ..m
                        },
                    )
                },
            },
        }
    }
}

/// The answer to a reservation: the message, unless the target owns the entity at the
/// expected epoch already.
pub open spec fn reserved(m: MachineView, id: TransferId) -> Result<TransferMessage, Error> {
    match get_at(m.transfers, id) {
        None => Err(spec_error(Status::HandleStale, 3)),
        Some(msg) => {
            let epoch = match get_at(m.regions, msg.target) {
                None => None,
                Some(state) => match get_at(state.records, msg.entity) {
                    None => None,
                    Some(record) => Some(record.epoch),
                },
            };
            if epoch == Some(msg.expected_epoch) {
                Err(spec_error(Status::Conflict, 8))
            } else {
                Ok(msg)
            }
        },
    }
}

/// The records of the first `k` regions.
pub open spec fn records_of(regions: Seq<(RegionId, RegionView)>, k: nat) -> Seq<OwnershipRecord>
    decreases k,
{
    if k == 0 || k > regions.len() {
        Seq::empty()
    } else {
        records_of(regions, (k - 1) as nat) + regions[k - 1].1.records.map_values(
            |r: (EntityId, OwnershipRecord)| r.1,
        )
    }
}

/// Whether two records name different owners of one entity in one epoch.
pub open spec fn clash(s: Seq<OwnershipRecord>) -> bool {
    exists|i: int, j: int|
        0 <= i < s.len() && 0 <= j < s.len() && (#[trigger] s[i]).entity == (#[trigger] s[j]).entity
            && s[i].epoch == s[j].epoch && s[i].owner_region != s[j].owner_region
}

/// The target of a transfer with the record of its install.
pub open spec fn installed_region(m: MachineView, msg: TransferMessage) -> RegionView {
    let target = match get_at(m.regions, msg.target) {
        Some(state) => state,
        None => fresh_region(msg.target),
    };
    RegionView {
        records: put_at(
            target.records,
            msg.entity,
            OwnershipRecord {
                entity: msg.entity,
                generation: msg.generation,
                owner_region: msg.target,
                epoch: (msg.expected_epoch + 1) as u64,
                world_version: msg.base_version,
            },
        ),
        ..target
    }
}

/// The machine and the answer after an install. An install that was accepted is
/// answered alike and changes nothing, and neither does one that fails.
pub open spec fn installed(m: MachineView, id: TransferId) -> (MachineView, Result<u64, Error>) {
    match get_at(m.transfers, id) {
        None => (m, Err(spec_error(Status::HandleStale, 3))),
        Some(msg) => match get_at(m.confirmed, id) {
            Some(epoch) => (m, Ok(epoch)),
            None => match get_at(m.regions, msg.source) {
                None => (m, Err(spec_error(Status::HandleStale, 1))),
                Some(source) => match get_at(source.records, msg.entity) {
                    None => (m, Err(spec_error(Status::HandleStale, 2))),
                    Some(record) => if record.epoch != msg.expected_epoch {
                        (m, Err(spec_error(Status::OwnershipStale, 3)))
                    } else if msg.expected_epoch == u64::MAX {
                        (m, Err(spec_error(Status::Limit, 2)))
                    } else {
                        let epoch = (msg.expected_epoch + 1) as u64;
                        let after = MachineView {
                            regions: set_at(m.regions, msg.target, installed_region(m, msg)),
                            confirmed: put_at(m.confirmed, id, epoch),
                            ..m
                        };
                        if clash(records_of(after.regions, after.regions.len())) {
                            (m, Err(spec_error(Status::Internal, 1)))
                        } else {
                            (after, Ok(epoch))
                        }
                    },
                },
            },
        },
    }
}

/// The outcome of a release: an error, or the machine afterwards. The source gives up
/// the record of the expected epoch and no other: where it has none, nothing changes.
pub open spec fn released(m: MachineView, id: TransferId) -> Result<MachineView, Error> {
    match get_at(m.transfers, id) {
        None => Err(spec_error(Status::HandleStale, 3)),
        Some(msg) => match get_at(m.confirmed, id) {
            None => Err(spec_error(Status::OwnershipStale, 4)),
            Some(epoch) => if epoch != msg.expected_epoch + 1 {
                Err(spec_error(Status::OwnershipStale, 5))
            } else {
                match get_at(m.regions, msg.source) {
                    None => Ok(m),
                    Some(source) => if !holds(source, msg.entity, msg.expected_epoch) {
                        Ok(m)
                    } else {
                        Ok(
                            MachineView {
                                regions: set_at(
                                    m.regions,
                                    msg.source,
                                    RegionView {
                                        records: drop_at(source.records, msg.entity),
                                        pending: drop_at(source.pending, msg.entity),
                                        ..source
                                    },
                                ),
                                ..m
                            },
                        )
                    },
                }
            },
        },
    }
}

/// Whether a region owns an entity at an epoch.
pub open spec fn holds(state: RegionView, entity: EntityId, epoch: u64) -> bool {
    match get_at(state.records, entity) {
        Some(record) => record.epoch == epoch,
        None => false,
    }
}

fn list_records(regions: &Table<RegionId, RegionState>) -> (r: Vec<OwnershipRecord>)
    ensures
        r@ == records_of(regions@, regions@.len()),
{
    let mut list: Vec<OwnershipRecord> = Vec::new();
    let mut i: usize = 0;
    while i < regions.entries.len()
        invariant
            i <= regions.entries.len(),
            regions@.len() == regions.entries.len(),
            list@ == records_of(regions@, i as nat),
        decreases regions.entries.len() - i,
    {
        let records: &Table<EntityId, OwnershipRecord> = &regions.entries[i].1.records;
        let ghost start = list@;
        let ghost new = records@.map_values(|r: (EntityId, OwnershipRecord)| r.1);
        let mut k: usize = 0;
        while k < records.entries.len()
            invariant
                k <= records.entries.len(),
                new == records@.map_values(|r: (EntityId, OwnershipRecord)| r.1),
                list@ == start + new.take(k as int),
            decreases records.entries.len() - k,
        {
            list.push(records.entries[k].1);
            proof {
                assert(new[k as int] == records.entries@[k as int].1);
                assert(list@ =~= start + new.take(k + 1));
            }
            k = k + 1;
        }
        proof {
            assert(new.take(k as int) =~= new);
            assert(regions@[i as int].1.records == records@);
        }
        i = i + 1;
    }
    list
}

fn copy_region(state: &RegionState) -> (r: RegionState)
    ensures
        r@ == state@,
{
    let mut records: Table<EntityId, OwnershipRecord> = Table::new();
    let mut i: usize = 0;
    while i < state.records.entries.len()
        invariant
            i <= state.records.entries.len(),
            records.entries@ == state.records.entries@.take(i as int),
        decreases state.records.entries.len() - i,
    {
        records.entries.push(state.records.entries[i]);
        i = i + 1;
    }
    let mut pending: Table<EntityId, TransferId> = Table::new();
    let mut k: usize = 0;
    while k < state.pending.entries.len()
        invariant
            k <= state.pending.entries.len(),
            pending.entries@ == state.pending.entries@.take(k as int),
        decreases state.pending.entries.len() - k,
    {
        pending.entries.push(state.pending.entries[k]);
        k = k + 1;
    }
    proof {
        assert(records.entries@ =~= state.records.entries@);
        assert(pending.entries@ =~= state.pending.entries@);
    }
    RegionState { region: state.region, records, pending }
}

fn copy_regions(regions: &Table<RegionId, RegionState>) -> (r: Table<RegionId, RegionState>)
    ensures
        r@ == regions@,
{
    let mut copy: Table<RegionId, RegionState> = Table::new();
    let mut i: usize = 0;
    while i < regions.entries.len()
        invariant
            i <= regions.entries.len(),
            regions@.len() == regions.entries.len(),
            copy@ == regions@.take(i as int),
        decreases regions.entries.len() - i,
    {
        let ghost before = copy@;
        let id: RegionId = regions.entries[i].0;
        let state: RegionState = copy_region(&regions.entries[i].1);
        let ghost added = (id, state@);
        copy.entries.push((id, state));
        proof {
            assert(copy@ =~= before.push(added));
            assert(regions@[i as int] == added);
            assert(copy@ =~= regions@.take(i + 1));
        }
        i = i + 1;
    }
    proof {
        assert(regions@.take(i as int) =~= regions@);
    }
    copy
}

fn has_clash(list: &Vec<OwnershipRecord>) -> (r: bool)
    ensures
        r == clash(list@),
{
    let mut i: usize = 0;
    while i < list.len()
        invariant
            i <= list.len(),
            forall|a: int, b: int|
                0 <= a < i && 0 <= b < list@.len() && (#[trigger] list@[a]).entity == (
                #[trigger] list@[b]).entity && list@[a].epoch == list@[b].epoch
                    ==> list@[a].owner_region == list@[b].owner_region,
        decreases list.len() - i,
    {
        let mut j: usize = 0;
        while j < list.len()
            invariant
                i < list.len(),
                j <= list.len(),
                forall|b: int|
                    0 <= b < j && list@[i as int].entity == (#[trigger] list@[b]).entity
                        && list@[i as int].epoch == list@[b].epoch
                        ==> list@[i as int].owner_region == list@[b].owner_region,
            decreases list.len() - j,
        {
            if list[i].entity == list[j].entity && list[i].epoch == list[j].epoch
                && list[i].owner_region != list[j].owner_region {
                return true;
            }
            j = j + 1;
        }
        i = i + 1;
    }
    false
}

impl OwnershipMachine {
    /// A machine without regions.
    pub fn new() -> (m: OwnershipMachine)
        ensures
            m@ == (MachineView {
                regions: Seq::empty(),
                transfers: Seq::empty(),
                confirmed: Seq::empty(),
            }),
            sound(m@),
    {
        OwnershipMachine {
            regions: Table::new(),
            transfers: Table::new(),
            confirmed: Table::new(),
        }
    }

    /// The state of a region, which is made where it is not known yet.
    pub fn region(&mut self, region: RegionId) -> (r: &mut RegionState)
        ensures
            r@ == (match get_at(old(self)@.regions, region) {
                Some(state) => state,
                None => fresh_region(region),
            }),
            final(self)@ == (MachineView {
                regions: set_at(old(self)@.regions, region, final(r)@),
                ..old(self)@
            }),
    {
        let ghost before = self.regions@;
        if self.regions.find(&region).is_none() {
            self.regions.put(region, RegionState::new(region));
            proof {
                law_put_then_get(before, region, fresh_region(region), region);
                lemma_place(before, region);
                assert forall|state: RegionView| #[trigger]
                    put_at(before, region, state) == set_at(
                        put_at(before, region, fresh_region(region)),
                        region,
                        state,
                    ) by {
                    lemma_put_then_set(before, region, fresh_region(region), state);
                }
            }
        }
        let at: usize = match self.regions.find(&region) {
            Some(i) => i,
            None => 0,
        };
        proof {
            let entries = self.regions.entries@;
            assert forall|e: (RegionId, RegionState)|
                (#[trigger] entries.update(at as int, e)).map_values(
                    |x: (RegionId, RegionState)| (x.0, x.1@),
                ) == entries.map_values(|x: (RegionId, RegionState)| (x.0, x.1@)).update(
                    at as int,
                    (e.0, e.1@),
                ) by {
                assert(entries.update(at as int, e).map_values(
                    |x: (RegionId, RegionState)| (x.0, x.1@),
                ) =~= entries.map_values(|x: (RegionId, RegionState)| (x.0, x.1@)).update(
                    at as int,
                    (e.0, e.1@),
                ));
            }
        }
        &mut self.regions.entries[at].1
    }

    /// The source proposes a transfer. A repeated proposal changes nothing.
    pub fn propose(&mut self, message: TransferMessage) -> (r: Result<(), Error>)
        ensures
            match proposed(old(self)@, message) {
                Ok(m) => r is Ok && final(self)@ == m,
                Err(e) => r == Err::<(), Error>(e) && final(self)@ == old(self)@,
            },
            sound(old(self)@) ==> sound(final(self)@),
    {
        if message.source == message.target {
            return Err(error(Status::Invalid, 1));
        }
        let at: usize = match self.regions.find(&message.source) {
            Some(i) => i,
            None => return Err(error(Status::HandleStale, 1)),
        };
        match self.regions.entries[at].1.owner_of(message.entity) {
            None => return Err(error(Status::HandleStale, 2)),
            Some(record) => {
                if record.epoch != message.expected_epoch {
                    return Err(error(Status::OwnershipStale, 1));
                }
                if message.base_version != record.world_version {
                    return Err(error(Status::OwnershipStale, 2));
                }
            },
        }
        if self.transfers.has(&message.transfer_id) {
            return Ok(());
        }
        self.transfers.put(message.transfer_id, message);
        let ghost regions = self.regions@;
        self.regions.entries[at].1.pending.put(message.entity, message.transfer_id);
        proof {
            let source = RegionView {
                pending: put_at(
                    regions[at as int].1.pending,
                    message.entity,
                    message.transfer_id,
                ),
                ..regions[at as int].1
            };
            assert(self.regions@ =~= regions.update(at as int, (message.source, source)));
            law_propose_keeps_sound(old(self)@, message);
        }
        Ok(())
    }

    /// The target accepts a proposal.
    pub fn reserve(&self, transfer_id: TransferId) -> (r: Result<TransferMessage, Error>)
        ensures
            r == reserved(self@, transfer_id),
    {
        let message: TransferMessage = match self.transfers.get(&transfer_id) {
            Some(m) => *m,
            None => return Err(error(Status::HandleStale, 3)),
        };
        if let Some(state) = self.regions.get(&message.target) {
            if let Some(record) = state.owner_of(message.entity) {
                if record.epoch == message.expected_epoch {
                    return Err(error(Status::Conflict, 8));
                }
            }
        }
        Ok(message)
    }

    /// The source freezes the entity. `payload_hash` is the digest of the payload; it
    /// must be the one that was announced.
    pub fn freeze(&self, transfer_id: TransferId, payload_hash: Hash256) -> (r: Result<
        Hash256,
        Error,
    >)
        ensures
            match get_at(self@.transfers, transfer_id) {
                None => r == Err::<Hash256, Error>(spec_error(Status::HandleStale, 3)),
                Some(m) => if m.payload_hash@ == payload_hash@ {
                    r == Ok::<Hash256, Error>(payload_hash)
                } else {
                    r == Err::<Hash256, Error>(spec_error(Status::Conflict, 9))
                },
            },
    {
        let message: &TransferMessage = match self.transfers.get(&transfer_id) {
            Some(m) => m,
            None => return Err(error(Status::HandleStale, 3)),
        };
        if !message.payload_hash.same(&payload_hash) {
            return Err(error(Status::Conflict, 9));
        }
        Ok(payload_hash)
    }

    /// The target installs the entity and owns it from the next epoch on. A repeated
    /// install gives the same answer and changes nothing.
    pub fn install(&mut self, transfer_id: TransferId) -> (r: Result<u64, Error>)
        ensures
            (final(self)@, r) == installed(old(self)@, transfer_id),
            sound(old(self)@) ==> sound(final(self)@),
    {
        let message: TransferMessage = match self.transfers.get(&transfer_id) {
            Some(m) => *m,
            None => return Err(error(Status::HandleStale, 3)),
        };
        if let Some(epoch) = self.confirmed.get(&transfer_id) {
            return Ok(*epoch);
        }
        match self.regions.get(&message.source) {
            None => return Err(error(Status::HandleStale, 1)),
            Some(source) => match source.owner_of(message.entity) {
                None => return Err(error(Status::HandleStale, 2)),
                Some(record) => if record.epoch != message.expected_epoch {
                    return Err(error(Status::OwnershipStale, 3));
                },
            },
        }
        let epoch: u64 = match message.expected_epoch.checked_add(1) {
            Some(e) => e,
            None => return Err(error(Status::Limit, 2)),
        };
        let record = OwnershipRecord {
            entity: message.entity,
            generation: message.generation,
            owner_region: message.target,
            epoch,
            world_version: message.base_version,
        };
        let mut next = OwnershipMachine {
            regions: copy_regions(&self.regions),
            transfers: Table::new(),
            confirmed: Table::new(),
        };
        let target: &mut RegionState = next.region(message.target);
        target.records.put(message.entity, record);
        if has_clash(&list_records(&next.regions)) {
            return Err(error(Status::Internal, 1));
        }
        self.regions = next.regions;
        self.confirmed.put(transfer_id, epoch);
        proof {
            law_install_keeps_sound(old(self)@, transfer_id);
        }
        Ok(epoch)
    }

    /// The source gives the entity up once the target has installed it. A repeated
    /// release changes nothing.
    pub fn release(&mut self, transfer_id: TransferId) -> (r: Result<(), Error>)
        requires
            sound(old(self)@),
        ensures
            match released(old(self)@, transfer_id) {
                Ok(m) => r is Ok && final(self)@ == m,
                Err(e) => r == Err::<(), Error>(e) && final(self)@ == old(self)@,
            },
            sound(final(self)@),
    {
        let message: TransferMessage = match self.transfers.get(&transfer_id) {
            Some(m) => *m,
            None => return Err(error(Status::HandleStale, 3)),
        };
        let epoch: u64 = match self.confirmed.get(&transfer_id) {
            Some(e) => *e,
            None => return Err(error(Status::OwnershipStale, 4)),
        };
        if message.expected_epoch == u64::MAX || epoch != message.expected_epoch + 1 {
            return Err(error(Status::OwnershipStale, 5));
        }
        let at: usize = match self.regions.find(&message.source) {
            Some(i) => i,
            None => return Ok(()),
        };
        match self.regions.entries[at].1.owner_of(message.entity) {
            Some(record) => if record.epoch != message.expected_epoch {
                return Ok(());
            },
            None => return Ok(()),
        }
        let ghost regions = self.regions@;
        self.regions.entries[at].1.records.remove(&message.entity);
        self.regions.entries[at].1.pending.remove(&message.entity);
        proof {
            let source = regions[at as int].1;
            let after = RegionView {
                records: drop_at(source.records, message.entity),
                pending: drop_at(source.pending, message.entity),
                ..source
            };
            assert(self.regions@ =~= regions.update(at as int, (message.source, after)));
            law_release_keeps_sound(old(self)@, transfer_id);
        }
        Ok(())
    }
}

/// A proposal keeps the machine sound.
pub proof fn law_propose_keeps_sound(m: MachineView, msg: TransferMessage)
    requires
        proposed(m, msg) is Ok,
    ensures
        sound(m) ==> sound(proposed(m, msg)->Ok_0),
{
    if sound(m) && get_at(m.transfers, msg.transfer_id) is None {
        let after = proposed(m, msg)->Ok_0;
        let source = get_at(m.regions, msg.source)->0;
        let state = RegionView {
            pending: put_at(source.pending, msg.entity, msg.transfer_id),
            ..source
        };
        assert forall|id: TransferId|
            (#[trigger] get_at(after.transfers, id)) matches Some(t) ==> t.source != t.target
                && get_at(after.regions, t.source) is Some by {
            law_put_then_get(m.transfers, msg.transfer_id, msg, id);
            match get_at(after.transfers, id) {
                None => {},
                Some(t) => {
                    law_set_then_get(m.regions, msg.source, state, t.source);
                    assert(get_at(m.transfers, id) is Some || t == msg);
                },
            }
        }
    }
}

/// An install keeps the machine sound.
pub proof fn law_install_keeps_sound(m: MachineView, id: TransferId)
    ensures
        sound(m) ==> sound(installed(m, id).0),
{
    if sound(m) {
        let after = installed(m, id).0;
        if after != m {
            let msg = get_at(m.transfers, id)->0;
            assert forall|other: TransferId|
                (#[trigger] get_at(after.transfers, other)) matches Some(t) ==> t.source
                    != t.target && get_at(after.regions, t.source) is Some by {
                match get_at(m.transfers, other) {
                    None => {},
                    Some(t) => law_set_then_get(
                        m.regions,
                        msg.target,
                        installed_region(m, msg),
                        t.source,
                    ),
                }
            }
        }
    }
}

/// A release keeps the machine sound.
pub proof fn law_release_keeps_sound(m: MachineView, id: TransferId)
    requires
        sound(m),
        released(m, id) is Ok,
    ensures
        sound(released(m, id)->Ok_0),
{
    let after = released(m, id)->Ok_0;
    let msg = get_at(m.transfers, id)->0;
    let source = get_at(m.regions, msg.source)->0;
    if after != m {
        let state = RegionView {
            records: drop_at(source.records, msg.entity),
            pending: drop_at(source.pending, msg.entity),
            ..source
        };
        assert forall|other: TransferId|
            (#[trigger] get_at(after.transfers, other)) matches Some(t) ==> t.source != t.target
                && get_at(after.regions, t.source) is Some by {
            match get_at(m.transfers, other) {
                None => {},
                Some(t) => law_set_then_get(m.regions, msg.source, state, t.source),
            }
        }
    }
}

/// Whatever a caller does to a region, the machine stays sound.
pub proof fn law_region_keeps_sound(m: MachineView, region: RegionId, state: RegionView)
    requires
        sound(m),
    ensures
        sound((MachineView { regions: set_at(m.regions, region, state), ..m })),
{
    let after = MachineView { regions: set_at(m.regions, region, state), ..m };
    assert forall|other: TransferId|
        (#[trigger] get_at(after.transfers, other)) matches Some(t) ==> t.source != t.target
            && get_at(after.regions, t.source) is Some by {
        match get_at(m.transfers, other) {
            None => {},
            Some(t) => law_set_then_get(m.regions, region, state, t.source),
        }
    }
}

/// Whether the tables of a region are in order: no entity stands in one twice.
pub open spec fn region_in_order(r: RegionView) -> bool {
    in_order(r.records) && in_order(r.pending)
}

/// Whether the tables of a machine and of its regions are in order.
pub open spec fn machine_in_order(m: MachineView) -> bool {
    &&& in_order(m.regions)
    &&& in_order(m.transfers)
    &&& in_order(m.confirmed)
    &&& forall|i: int|
        0 <= i < m.regions.len() ==> region_in_order((#[trigger] m.regions[i]).1)
}

proof fn lemma_region_in_order(m: MachineView, region: RegionId)
    requires
        machine_in_order(m),
    ensures
        get_at(m.regions, region) matches Some(r) ==> region_in_order(r),
{
    lemma_place(m.regions, region);
    if get_at(m.regions, region) is Some {
        assert(region_in_order(m.regions[place_at(m.regions, region) as int].1));
    }
}

proof fn lemma_put_regions(
    s: Seq<(RegionId, RegionView)>,
    region: RegionId,
    state: RegionView,
)
    requires
        region_in_order(state),
        forall|i: int| 0 <= i < s.len() ==> region_in_order((#[trigger] s[i]).1),
    ensures
        forall|i: int|
            0 <= i < put_at(s, region, state).len() ==> region_in_order(
                (#[trigger] put_at(s, region, state)[i]).1,
            ),
    decreases s.len(),
{
    if s.len() > 0 {
        let rest = s.drop_first();
        assert forall|i: int| 0 <= i < rest.len() implies region_in_order(
            (#[trigger] rest[i]).1,
        ) by {
            assert(rest[i] == s[i + 1]);
        }
        lemma_put_regions(rest, region, state);
        let all = put_at(s, region, state);
        assert forall|i: int| 0 <= i < all.len() implies region_in_order(
            (#[trigger] all[i]).1,
        ) by {
            if s[0].0 == region {
                if i > 0 {
                    assert(all[i] == s[i]);
                }
            } else if region.before(s[0].0) {
                if i > 0 {
                    assert(all[i] == s[i - 1]);
                }
            } else if i == 0 {
                assert(all[0] == s[0]);
            } else {
                assert(all[i] == put_at(rest, region, state)[i - 1]);
            }
        }
    }
}

/// A region that is in order keeps the machine in order, whatever else is in it.
pub proof fn law_region_keeps_order(m: MachineView, region: RegionId, state: RegionView)
    requires
        machine_in_order(m),
        region_in_order(state),
    ensures
        machine_in_order(MachineView { regions: set_at(m.regions, region, state), ..m }),
{
    law_set_keeps_order(m.regions, region, state);
    lemma_place(m.regions, region);
    let all = set_at(m.regions, region, state);
    if place_at(m.regions, region) < m.regions.len() {
        assert forall|i: int| 0 <= i < all.len() implies region_in_order(
            (#[trigger] all[i]).1,
        ) by {
            if i != place_at(m.regions, region) {
                assert(all[i] == m.regions[i]);
            }
        }
    } else {
        lemma_put_regions(m.regions, region, state);
    }
}

/// Every step of a transfer keeps the machine in order.
pub proof fn law_transfers_keep_order(m: MachineView, msg: TransferMessage, id: TransferId)
    requires
        machine_in_order(m),
    ensures
        proposed(m, msg) matches Ok(after) ==> machine_in_order(after),
        machine_in_order(installed(m, id).0),
        released(m, id) matches Ok(after) ==> machine_in_order(after),
{
    if let Ok(after) = proposed(m, msg) {
        if get_at(m.transfers, msg.transfer_id) is None {
            lemma_region_in_order(m, msg.source);
            let source = get_at(m.regions, msg.source)->0;
            law_put_keeps_order(source.pending, msg.entity, msg.transfer_id);
            law_put_keeps_order(m.transfers, msg.transfer_id, msg);
            law_region_keeps_order(
                m,
                msg.source,
                RegionView {
                    pending: put_at(source.pending, msg.entity, msg.transfer_id),
                    ..source
                },
            );
        }
    }
    if let Some(known) = get_at(m.transfers, id) {
        if installed(m, id).0 != m {
            let target = match get_at(m.regions, known.target) {
                Some(state) => state,
                None => fresh_region(known.target),
            };
            lemma_region_in_order(m, known.target);
            let record = OwnershipRecord {
                entity: known.entity,
                generation: known.generation,
                owner_region: known.target,
                epoch: (known.expected_epoch + 1) as u64,
                world_version: known.base_version,
            };
            law_put_keeps_order(target.records, known.entity, record);
            law_put_keeps_order(m.confirmed, id, (known.expected_epoch + 1) as u64);
            law_region_keeps_order(m, known.target, installed_region(m, known));
        }
        if released(m, id) is Ok && released(m, id)->Ok_0 != m {
            lemma_region_in_order(m, known.source);
            let source = get_at(m.regions, known.source)->0;
            law_drop_keeps_order(source.records, known.entity);
            law_drop_keeps_order(source.pending, known.entity);
            law_region_keeps_order(
                m,
                known.source,
                RegionView {
                    records: drop_at(source.records, known.entity),
                    pending: drop_at(source.pending, known.entity),
                    ..source
                },
            );
        }
    }
}

/// The epoch at which a region owns an entity, if it owns it.
pub open spec fn epoch_at(m: MachineView, region: RegionId, entity: EntityId) -> Option<u64> {
    match get_at(m.regions, region) {
        None => None,
        Some(state) => match get_at(state.records, entity) {
            None => None,
            Some(record) => Some(record.epoch),
        },
    }
}

/// An accepted install is idempotent: a second one gives the same epoch and leaves
/// the machine as it is.
pub proof fn law_install_is_idempotent(m: MachineView, id: TransferId)
    requires
        installed(m, id).1 is Ok,
    ensures
        installed(installed(m, id).0, id) == installed(m, id),
{
    let (after, r) = installed(m, id);
    if get_at(m.confirmed, id) is None {
        law_put_then_get(m.confirmed, id, r->Ok_0, id);
    }
}

/// A first accepted install makes the target the owner at the epoch after the expected
/// one, and the source still owns at the expected one until it releases.
pub proof fn law_install_advances_epoch(m: MachineView, id: TransferId)
    requires
        sound(m),
        installed(m, id).1 is Ok,
        get_at(m.confirmed, id) is None,
    ensures
        get_at(m.transfers, id) matches Some(msg) && {
            let after = installed(m, id).0;
            &&& installed(m, id).1 == Ok::<u64, Error>((msg.expected_epoch + 1) as u64)
            &&& epoch_at(after, msg.target, msg.entity) == Some((msg.expected_epoch + 1) as u64)
            &&& epoch_at(after, msg.source, msg.entity) == Some(msg.expected_epoch)
        },
{
    let msg = get_at(m.transfers, id)->0;
    law_set_then_get(m.regions, msg.target, installed_region(m, msg), msg.target);
    law_set_then_get(m.regions, msg.target, installed_region(m, msg), msg.source);
    let target = match get_at(m.regions, msg.target) {
        Some(state) => state,
        None => fresh_region(msg.target),
    };
    law_put_then_get(
        target.records,
        msg.entity,
        OwnershipRecord {
            entity: msg.entity,
            generation: msg.generation,
            owner_region: msg.target,
            epoch: (msg.expected_epoch + 1) as u64,
            world_version: msg.base_version,
        },
        msg.entity,
    );
}

/// Nothing is released before its install was accepted.
pub proof fn law_release_needs_install(m: MachineView, id: TransferId)
    requires
        get_at(m.confirmed, id) is None,
    ensures
        released(m, id) is Err,
{
}

/// After its release the source does not own the entity at the expected epoch, and
/// every other region keeps what it owns. A record of another epoch is left alone.
pub proof fn law_release_ends_ownership(m: MachineView, id: TransferId, other: RegionId)
    requires
        sound(m),
        released(m, id) is Ok,
    ensures
        get_at(m.transfers, id) matches Some(msg) && {
            let after = released(m, id)->Ok_0;
            &&& epoch_at(after, msg.source, msg.entity) != Some(msg.expected_epoch)
            &&& epoch_at(m, msg.source, msg.entity) != Some(msg.expected_epoch) ==> after == m
            &&& other != msg.source ==> get_at(after.regions, other) == get_at(m.regions, other)
        },
{
    let msg = get_at(m.transfers, id)->0;
    let source = get_at(m.regions, msg.source)->0;
    let state = RegionView {
        records: drop_at(source.records, msg.entity),
        pending: drop_at(source.pending, msg.entity),
        ..source
    };
    law_set_then_get(m.regions, msg.source, state, msg.source);
    law_set_then_get(m.regions, msg.source, state, other);
    law_drop_then_get(source.records, msg.entity, msg.entity);
}

/// A release is idempotent: a second one changes nothing.
pub proof fn law_release_is_idempotent(m: MachineView, id: TransferId)
    requires
        released(m, id) is Ok,
    ensures
        released(released(m, id)->Ok_0, id) == released(m, id),
{
    let after = released(m, id)->Ok_0;
    if after != m {
        let msg = get_at(m.transfers, id)->0;
        let source = get_at(m.regions, msg.source)->0;
        let state = RegionView {
            records: drop_at(source.records, msg.entity),
            pending: drop_at(source.pending, msg.entity),
            ..source
        };
        law_set_then_get(m.regions, msg.source, state, msg.source);
        law_drop_then_get(source.records, msg.entity, msg.entity);
    }
}

/// A proposal is idempotent: a second one under its transfer id changes nothing, and the
/// message that came first stays.
pub proof fn law_proposal_is_idempotent(m: MachineView, msg: TransferMessage, other: TransferMessage)
    requires
        proposed(m, msg) is Ok,
        other.transfer_id == msg.transfer_id,
    ensures
        ({
            let after = proposed(m, msg)->Ok_0;
            &&& get_at(after.transfers, msg.transfer_id) is Some
            &&& get_at(m.transfers, msg.transfer_id) is Some ==> after == m
            &&& proposed(after, other) is Ok ==> proposed(after, other)->Ok_0 == after
        }),
{
    law_put_then_get(m.transfers, msg.transfer_id, msg, msg.transfer_id);
}

/// An install that fails changes nothing.
pub proof fn law_failed_install_changes_nothing(m: MachineView, id: TransferId)
    requires
        installed(m, id).1 is Err,
    ensures
        installed(m, id).0 == m,
{
}

/// A proposal gives and takes nothing: every region owns what it owned, at the same
/// epochs. Only an install makes a region the owner.
pub proof fn law_proposal_moves_nothing(
    m: MachineView,
    msg: TransferMessage,
    region: RegionId,
    entity: EntityId,
)
    requires
        proposed(m, msg) is Ok,
    ensures
        epoch_at(proposed(m, msg)->Ok_0, region, entity) == epoch_at(m, region, entity),
{
    if get_at(m.transfers, msg.transfer_id) is None {
        let source = get_at(m.regions, msg.source)->0;
        let state = RegionView {
            pending: put_at(source.pending, msg.entity, msg.transfer_id),
            ..source
        };
        law_set_then_get(m.regions, msg.source, state, region);
    }
}

/// An install changes the ownership of no region but the target, and of no entity but
/// the one that it is about.
pub proof fn law_install_moves_one_entity(
    m: MachineView,
    id: TransferId,
    region: RegionId,
    entity: EntityId,
)
    requires
        get_at(m.transfers, id) matches Some(msg) ==> region != msg.target || entity != msg.entity,
    ensures
        epoch_at(installed(m, id).0, region, entity) == epoch_at(m, region, entity),
{
    if installed(m, id).0 != m {
        let msg = get_at(m.transfers, id)->0;
        law_set_then_get(m.regions, msg.target, installed_region(m, msg), region);
        let target = match get_at(m.regions, msg.target) {
            Some(state) => state,
            None => fresh_region(msg.target),
        };
        law_put_then_get(
            target.records,
            msg.entity,
            OwnershipRecord {
                entity: msg.entity,
                generation: msg.generation,
                owner_region: msg.target,
                epoch: (msg.expected_epoch + 1) as u64,
                world_version: msg.base_version,
            },
            entity,
        );
    }
}

/// An install whose source has moved on from the expected epoch is refused, and changes
/// nothing.
pub proof fn law_stale_install_is_refused(m: MachineView, id: TransferId)
    requires
        get_at(m.confirmed, id) is None,
        get_at(m.transfers, id) matches Some(msg) ==> epoch_at(m, msg.source, msg.entity) != Some(
            msg.expected_epoch,
        ),
    ensures
        installed(m, id).1 is Err,
        installed(m, id).0 == m,
{
}

/// A proposal with another epoch than the recorded one is refused.
pub proof fn law_stale_proposal_is_refused(m: MachineView, msg: TransferMessage)
    requires
        epoch_at(m, msg.source, msg.entity) != Some(msg.expected_epoch),
    ensures
        proposed(m, msg) is Err,
{
}

/// An accepted install leaves no two owners of one entity in one epoch.
pub proof fn law_no_two_owners(m: MachineView, id: TransferId)
    requires
        installed(m, id).1 is Ok,
        get_at(m.confirmed, id) is None,
    ensures
        !clash(records_of(installed(m, id).0.regions, installed(m, id).0.regions.len())),
{
}

} // verus!
