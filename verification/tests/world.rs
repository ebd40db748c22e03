//! Transactions and transfers of a world.

use pwe::api::{
    Access, ComponentTypeId, EntityId, EntityRef, Error, Hash256, Ownership, OwnershipEpoch,
    RegionId, ResourceId, SimTime, Status, TransferId, WorldId, WorldVersion,
};
use pwe::bytes::{value_from_bytes, value_into_bytes};
use pwe::world::{
    enforce_claims, CapabilityClaims, ComponentDescriptor, ConflictPolicy, DescriptorChecks,
    ReferenceWorld, ResourceRef, Schema, TransactionOptions, TransferProposal, TxnState,
};

type World = ReferenceWorld<fn(u64, u64) -> u64>;

fn add_bits(a: u64, b: u64) -> u64 {
    a.wrapping_add(b)
}

fn status<T>(r: Result<T, Error>) -> Status {
    match r {
        Ok(_) => panic!("expected an error"),
        Err(e) => e.status,
    }
}

fn fault<T>(r: Result<T, Error>) -> (Status, u32) {
    match r {
        Ok(_) => panic!("expected an error"),
        Err(e) => (e.status, e.detail),
    }
}

fn entity(n: u128) -> EntityRef {
    EntityRef { id: EntityId(n), generation: 1 }
}

fn options(version: u64) -> TransactionOptions {
    TransactionOptions {
        base_version: WorldVersion(version),
        ownership: Ownership { region: RegionId(7), epoch: OwnershipEpoch(1) },
        policy: ConflictPolicy::Reject,
    }
}

fn options_with(version: u64, policy: ConflictPolicy) -> TransactionOptions {
    TransactionOptions {
        base_version: WorldVersion(version),
        ownership: options(version).ownership,
        policy,
    }
}

fn access(read: bool, write: bool, create: bool, destroy: bool, emit: bool) -> Access {
    Access { read, write, create, destroy, emit }
}

fn create() -> Access {
    access(false, false, true, false, false)
}

fn write() -> Access {
    access(false, true, false, false, false)
}

fn destroy() -> Access {
    access(false, false, false, true, false)
}

fn emit() -> Access {
    access(false, false, false, false, true)
}

fn capability(access: Access) -> CapabilityClaims {
    CapabilityClaims {
        issuer: Hash256([1; 32]),
        subject: Hash256([2; 32]),
        world: WorldId(1),
        region: RegionId(7),
        access,
        expires_at_version: WorldVersion(u64::MAX),
        nonce: [0; 16],
    }
}

fn component() -> ComponentDescriptor {
    ComponentDescriptor {
        type_id: ComponentTypeId::from_bytes([9; 16]),
        schema_hash: Hash256([3; 32]),
        abi_major: 2,
        flags: 0,
        value_size: 4,
        value_align: 4,
    }
}

fn fine() -> DescriptorChecks {
    DescriptorChecks { base: None, mismatch: departs() }
}

fn departs() -> Error {
    Error { status: Status::SchemaUnsupported, detail: 90, byte_offset: 0 }
}

fn differs() -> Error {
    Error { status: Status::Conflict, detail: 91, byte_offset: 0 }
}

fn schema(type_id: ComponentTypeId, hash: u8, size: u32) -> Schema {
    Schema { type_id, hash: Hash256([hash; 32]), size }
}

fn put(world: &mut World, o: TransactionOptions, bytes: [u8; 4]) -> Result<(), Error> {
    let mut tx = world.begin(o, capability(write()))?;
    tx.put_component(entity(1), component(), fine(), &bytes.to_vec())?;
    tx.commit()?;
    Ok(())
}

fn world_with_entity_value(value: [u8; 4]) -> World {
    let mut world = World::new(WorldId(1));
    let mut tx = world.begin(options(0), capability(create().union(write()))).unwrap();
    tx.create(entity(1)).unwrap();
    tx.put_component(entity(1), component(), fine(), &value.to_vec()).unwrap();
    tx.commit().unwrap();
    world
}

#[test]
fn commit_is_atomic_and_ordered() {
    let mut world = World::new(WorldId(1));
    let mut tx = world.begin(options(0), capability(create().union(write()))).unwrap();
    tx.create(entity(2)).unwrap();
    tx.create(entity(1)).unwrap();
    assert_eq!(tx.commit().unwrap().world_version, WorldVersion(1));
    assert_eq!(world.ownership(entity(1)).unwrap().region, RegionId(7));
}

#[test]
fn empty_capability_and_stale_version_fail_closed() {
    let mut world = World::new(WorldId(1));
    let claims = CapabilityClaims { world: WorldId(99), ..capability(create()) };
    assert_eq!(status(world.begin(options(0), claims)), Status::Capability);
    let mut tx = world.begin(options(0), capability(create().union(write()))).unwrap();
    tx.create(entity(1)).unwrap();
    tx.commit().unwrap();
    // A transaction begun at a stale base version still fails closed under the Reject
    // policy, but at commit rather than begin.
    let mut tx = world.begin(options(0), capability(create())).unwrap();
    tx.create(entity(2)).unwrap();
    assert_eq!(status(tx.commit()), Status::Conflict);
}

#[test]
fn component_writes_are_invisible_until_atomic_commit() {
    let mut world = World::new(WorldId(1));
    let mut tx = world.begin(options(0), capability(create().union(write()))).unwrap();
    tx.create(entity(1)).unwrap();
    tx.put_component(entity(1), component(), fine(), &vec![1, 2, 3, 4]).unwrap();
    tx.commit().unwrap();
    assert_eq!(
        world.component_bytes(entity(1), component().type_id).unwrap(),
        &[1, 2, 3, 4]
    );
    let mut tx = world.begin(options(1), capability(destroy())).unwrap();
    tx.destroy(entity(1)).unwrap();
    tx.commit().unwrap();
    assert_eq!(
        status(world.component_bytes(entity(1), component().type_id)),
        Status::HandleStale
    );
}

#[test]
fn transfer_advances_epoch_once_and_duplicate_confirmation_is_idempotent() {
    let mut world = World::new(WorldId(1));
    let mut tx = world.begin(options(0), capability(create())).unwrap();
    tx.create(entity(1)).unwrap();
    tx.commit().unwrap();
    let proposal = TransferProposal {
        id: TransferId(99),
        entity: entity(1),
        source: options(1).ownership,
        target: RegionId(8),
        base_version: WorldVersion(1),
    };
    world.prepare_transfer(proposal).unwrap();
    let installed = world.confirm_transfer(TransferId(99)).unwrap();
    assert_eq!(installed, Ownership { region: RegionId(8), epoch: OwnershipEpoch(2) });
    assert_eq!(world.confirm_transfer(TransferId(99)).unwrap(), installed);
    assert_eq!(world.version(), WorldVersion(2));
}

#[test]
fn conflict_policy_reject_rejects_stale_base() {
    let mut world = world_with_entity_value([1, 0, 0, 0]);
    let mut tx =
        world.begin(options_with(0, ConflictPolicy::Reject), capability(write())).unwrap();
    tx.put_component(entity(1), component(), fine(), &vec![2, 0, 0, 0]).unwrap();
    assert_eq!(status(tx.commit()), Status::Conflict);
    assert_eq!(world.version(), WorldVersion(1));
}

#[test]
fn conflict_policy_last_writer_wins() {
    let mut world = world_with_entity_value([1, 0, 0, 0]);
    let o = options_with(0, ConflictPolicy::LastWriterByPriority);
    let mut tx = world.begin(o, capability(write())).unwrap();
    tx.put_component(entity(1), component(), fine(), &vec![2, 0, 0, 0]).unwrap();
    tx.commit().unwrap();
    assert_eq!(
        world.component_bytes(entity(1), component().type_id).unwrap(),
        &[2, 0, 0, 0]
    );
}

#[test]
fn conflict_policy_commutative_merge_uses_registered_fn() {
    let mut world = world_with_entity_value([1, 0, 0, 0]);
    world.register_merge(component().type_id, add_bits);
    let o = options_with(0, ConflictPolicy::CommutativeMerge);
    let mut tx = world.begin(o, capability(write())).unwrap();
    tx.put_component(entity(1), component(), fine(), &vec![2, 0, 0, 0]).unwrap();
    tx.commit().unwrap();
    assert_eq!(
        world.component_bytes(entity(1), component().type_id).unwrap(),
        &[3, 0, 0, 0]
    );
}

#[test]
fn commutative_merge_requires_registered_fn() {
    let mut world = world_with_entity_value([1, 0, 0, 0]);
    let o = options_with(0, ConflictPolicy::CommutativeMerge);
    let mut tx = world.begin(o, capability(write())).unwrap();
    tx.put_component(entity(1), component(), fine(), &vec![2, 0, 0, 0]).unwrap();
    assert_eq!(status(tx.commit()), Status::SchemaUnsupported);
}

#[test]
fn events_commit_only_after_success() {
    let mut world = World::new(WorldId(1));
    let mut tx = world.begin(options(0), capability(emit())).unwrap();
    tx.emit(1, 100).unwrap();
    tx.abort();
    assert!(world.events().is_empty());

    let mut tx = world.begin(options(0), capability(emit())).unwrap();
    tx.emit(1, 200).unwrap();
    tx.commit().unwrap();
    assert_eq!(world.events().len(), 1);
    assert_eq!(world.events()[0].world_version, WorldVersion(1));
    assert_eq!(world.events()[0].payload, 200);
}

#[test]
fn read_component_records_read_set() {
    let mut world = world_with_entity_value([7, 0, 0, 0]);
    let mut tx = world.begin(options(1), capability(write())).unwrap();
    let bytes = tx.read_component(entity(1), component().type_id).unwrap();
    assert_eq!(bytes, &[7, 0, 0, 0]);
    assert_eq!(tx.reads.len(), 1);
}

#[test]
fn claims_of_another_world_region_or_past_are_refused() {
    let world = World::new(WorldId(1));
    let v = world.version();
    let refused = |c: CapabilityClaims, version: u64| {
        fault(enforce_claims(&c, &options(0), WorldId(1), WorldVersion(version)))
    };
    let elsewhere = CapabilityClaims { world: WorldId(2), ..capability(create()) };
    assert_eq!(refused(elsewhere, 0), (Status::Capability, 1));
    let other_region = CapabilityClaims { region: RegionId(8), ..capability(create()) };
    assert_eq!(refused(other_region, 0), (Status::Capability, 1));
    let expired =
        CapabilityClaims { expires_at_version: WorldVersion(3), ..capability(create()) };
    assert_eq!(refused(expired, 4), (Status::Capability, 1));
    assert!(enforce_claims(&capability(create()), &options(0), WorldId(1), v).is_ok());
}

#[test]
fn every_operation_asks_for_its_access() {
    let mut world = world_with_entity_value([1, 0, 0, 0]);
    let mut tx = world.begin(options(1), capability(Access::none())).unwrap();
    assert_eq!(fault(tx.create(entity(5))), (Status::Capability, 2));
    assert_eq!(fault(tx.destroy(entity(1))), (Status::Capability, 3));
    assert_eq!(
        fault(tx.put_component(entity(1), component(), fine(), &vec![0; 4])),
        (Status::Capability, 4)
    );
    assert_eq!(fault(tx.emit(1, 1)), (Status::Capability, 6));
}

#[test]
fn a_closed_transaction_takes_nothing() {
    let mut world = world_with_entity_value([1, 0, 0, 0]);
    let all = access(true, true, true, true, true);
    let mut tx = world.begin(options(1), capability(all)).unwrap();
    tx.state = TxnState::Aborted;
    assert_eq!(fault(tx.create(entity(5))), (Status::Invalid, 1));
    assert_eq!(fault(tx.destroy(entity(1))), (Status::HandleStale, 2));
    assert_eq!(
        fault(tx.put_component(entity(1), component(), fine(), &vec![0; 4])),
        (Status::Invalid, 3)
    );
    assert_eq!(fault(tx.emit(1, 1)), (Status::Invalid, 6));
    assert_eq!(
        fault(tx.read_component(entity(1), component().type_id)),
        (Status::Invalid, 7)
    );
    assert_eq!(fault(tx.commit()), (Status::Invalid, 2));
}

#[test]
fn requests_that_repeat_or_contradict_are_conflicts() {
    let mut world = world_with_entity_value([1, 0, 0, 0]);
    let all = access(true, true, true, true, true);
    let mut tx = world.begin(options(1), capability(all)).unwrap();
    let unborn = EntityRef { id: EntityId(9), generation: 0 };
    assert_eq!(fault(tx.create(unborn)), (Status::Invalid, 1));
    assert_eq!(fault(tx.create(entity(1))), (Status::Conflict, 2));
    tx.create(entity(2)).unwrap();
    assert_eq!(fault(tx.create(entity(2))), (Status::Conflict, 2));
    tx.destroy(entity(1)).unwrap();
    assert_eq!(fault(tx.destroy(entity(1))), (Status::Conflict, 3));
    assert_eq!(
        fault(tx.put_component(entity(1), component(), fine(), &vec![0; 4])),
        (Status::Conflict, 5)
    );
}

#[test]
fn a_value_has_the_size_of_its_descriptor() {
    let mut world = world_with_entity_value([1, 0, 0, 0]);
    let mut tx = world.begin(options(1), capability(write())).unwrap();
    assert_eq!(
        fault(tx.put_component(entity(1), component(), fine(), &vec![0; 5])),
        (Status::Invalid, 4)
    );
}

#[test]
fn a_bad_descriptor_is_refused_with_its_word() {
    let mine = Error { status: Status::Internal, detail: 9, byte_offset: 0 };
    let base = DescriptorChecks { base: Some(mine), ..fine() };
    let mut world = world_with_entity_value([1, 0, 0, 0]);
    assert_eq!(world.validate_descriptor(&component(), &fine()), Ok(()));
    assert_eq!(world.validate_descriptor(&component(), &base), Err(mine));
    let mut tx = world.begin(options(1), capability(write())).unwrap();
    assert_eq!(
        fault(tx.put_component(entity(1), component(), base, &vec![0; 4])),
        (Status::Internal, 9)
    );
}

#[test]
fn a_descriptor_conforms_to_the_schema_of_its_type() {
    let mut world = world_with_entity_value([1, 0, 0, 0]);
    let known = schema(component().type_id, 3, 4);
    assert_eq!(world.register_schemas(&vec![known], differs()), Ok(()));
    let longer = ComponentDescriptor { value_size: 5, ..component() };
    let other = ComponentDescriptor { schema_hash: Hash256([4; 32]), ..component() };
    let unknown = ComponentDescriptor { type_id: ComponentTypeId(1), ..longer };
    assert_eq!(world.validate_descriptor(&component(), &fine()), Ok(()));
    assert_eq!(world.validate_descriptor(&longer, &fine()), Err(departs()));
    assert_eq!(world.validate_descriptor(&other, &fine()), Err(departs()));
    assert_eq!(world.validate_descriptor(&unknown, &fine()), Ok(()));
    let mine = Error { status: Status::Internal, detail: 9, byte_offset: 0 };
    let base = DescriptorChecks { base: Some(mine), ..fine() };
    assert_eq!(world.validate_descriptor(&component(), &base), Err(mine));
    let mut tx = world.begin(options(1), capability(write())).unwrap();
    assert_eq!(tx.put_component(entity(1), longer, fine(), &vec![0; 5]), Err(departs()));
    assert_eq!(tx.put_component(entity(1), other, fine(), &vec![0; 4]), Err(departs()));
    assert_eq!(tx.put_component(entity(1), unknown, fine(), &vec![0; 5]), Ok(()));
    assert_eq!(tx.put_component(entity(1), component(), fine(), &vec![7; 4]), Ok(()));
    tx.commit().unwrap();
    assert_eq!(world.component_bytes(entity(1), component().type_id).unwrap(), &vec![7; 4]);
}

#[test]
fn registration_is_idempotent_and_refuses_another_hash() {
    let (one, two) = (ComponentTypeId(1), ComponentTypeId(2));
    let mut world = World::new(WorldId(1));
    let both = vec![schema(two, 8, 4), schema(one, 7, 2)];
    assert_eq!(world.register_schemas(&both, differs()), Ok(()));
    assert_eq!(world.register_schemas(&both, differs()), Ok(()));
    assert_eq!(world.schemas.entries.len(), 2);
    // The registration stops at the conflict, and keeps what stood before it.
    let three = ComponentTypeId(3);
    let mixed = vec![schema(three, 1, 1), schema(one, 9, 2), schema(ComponentTypeId(4), 1, 1)];
    assert_eq!(world.register_schemas(&mixed, differs()), Err(differs()));
    assert_eq!(world.schemas.entries.len(), 3);
    assert!(world.schemas.get(&three).is_some());
    assert!(world.schemas.get(&one).unwrap().hash.same(&Hash256([7; 32])));
}

#[test]
fn unknown_entities_are_stale() {
    let mut world = world_with_entity_value([1, 0, 0, 0]);
    assert_eq!(fault(world.ownership(entity(2))), (Status::HandleStale, 1));
    let mut tx = world.begin(options(1), capability(destroy().union(write()))).unwrap();
    assert_eq!(fault(tx.destroy(entity(2))), (Status::HandleStale, 2));
    assert_eq!(
        fault(tx.put_component(entity(2), component(), fine(), &vec![0; 4])),
        (Status::HandleStale, 4)
    );
    assert_eq!(
        fault(tx.read_component(entity(2), component().type_id)),
        (Status::HandleStale, 3)
    );
}

#[test]
fn only_the_owner_destroys_and_writes() {
    let mut world = world_with_entity_value([1, 0, 0, 0]);
    let mut o = options(1);
    o.ownership.epoch = OwnershipEpoch(5);
    let mut tx = world.begin(o, capability(destroy())).unwrap();
    tx.destroy(entity(1)).unwrap();
    assert_eq!(fault(tx.commit()), (Status::OwnershipStale, 1));
    let mut tx = world.begin(o, capability(write())).unwrap();
    tx.put_component(entity(1), component(), fine(), &vec![0; 4]).unwrap();
    assert_eq!(fault(tx.commit()), (Status::OwnershipStale, 2));
}

/// What a commit wrote is read back, the rest stays, and events are appended.
#[test]
fn a_commit_is_read_back_and_leaves_the_rest() {
    let mut world = world_with_entity_value([1, 0, 0, 0]);
    let mut tx = world.begin(options(1), capability(create().union(write()).union(emit()))).unwrap();
    tx.create(entity(2)).unwrap();
    tx.put_component(entity(2), component(), fine(), &vec![8, 8, 8, 8]).unwrap();
    tx.emit(3, 4).unwrap();
    tx.commit().unwrap();
    assert_eq!(world.component_bytes(entity(2), component().type_id).unwrap(), &[8, 8, 8, 8]);
    assert_eq!(world.component_bytes(entity(1), component().type_id).unwrap(), &[1, 0, 0, 0]);
    assert_eq!(world.events().len(), 1);
    assert_eq!((world.events()[0].kind, world.events()[0].payload), (3, 4));
    assert_eq!(world.version(), WorldVersion(2));
}

#[test]
fn a_refused_commit_changes_nothing() {
    let mut world = world_with_entity_value([1, 0, 0, 0]);
    assert_eq!(status(put(&mut world, options(0), [5, 5, 5, 5])), Status::Conflict);
    assert_eq!(world.component_bytes(entity(1), component().type_id).unwrap(), &[1, 0, 0, 0]);
    assert!(world.events().is_empty());
}

fn proposal(id: u128, epoch: u64) -> TransferProposal {
    TransferProposal {
        id: TransferId(id),
        entity: entity(1),
        source: Ownership { region: RegionId(7), epoch: OwnershipEpoch(epoch) },
        target: RegionId(8),
        base_version: WorldVersion(1),
    }
}

#[test]
fn a_prepared_transfer_blocks_another_of_its_entity() {
    let mut world = world_with_entity_value([1, 0, 0, 0]);
    world.prepare_transfer(proposal(1, 1)).unwrap();
    world.prepare_transfer(proposal(1, 1)).unwrap();
    assert_eq!(fault(world.prepare_transfer(proposal(2, 1))), (Status::Conflict, 7));
    let other = TransferProposal { target: RegionId(9), ..proposal(1, 1) };
    assert_eq!(fault(world.prepare_transfer(other)), (Status::Conflict, 6));
}

/// The order in which a transaction creates and destroys does not show.
#[test]
fn the_order_of_requests_is_immaterial() {
    let all = || create().union(destroy()).union(write()).union(emit());
    let changed = |made: [u128; 3], gone: [u128; 2]| {
        let mut world = World::new(WorldId(1));
        let mut tx = world.begin(options(0), capability(all())).unwrap();
        for n in [4, 9, 6] {
            tx.create(entity(n)).unwrap();
            tx.put_component(entity(n), component(), fine(), &vec![n as u8, 0, 0, 0]).unwrap();
        }
        tx.commit().unwrap();
        let mut tx = world.begin(options(1), capability(all())).unwrap();
        for n in made {
            tx.create(entity(n)).unwrap();
        }
        for n in gone {
            tx.destroy(entity(n)).unwrap();
        }
        tx.put_component(entity(9), component(), fine(), &vec![7, 0, 0, 0]).unwrap();
        tx.put_component(entity(2), component(), fine(), &vec![8, 0, 0, 0]).unwrap();
        tx.emit(1, 2).unwrap();
        tx.commit().unwrap();
        world
    };
    let a = changed([3, 1, 2], [6, 4]);
    let b = changed([2, 3, 1], [4, 6]);
    assert_eq!(a.version(), b.version());
    assert_eq!(a.events(), b.events());
    let ids = |w: &World| -> Vec<u128> { w.entities.entries.iter().map(|e| e.0.id.0).collect() };
    assert_eq!(ids(&a), vec![1, 2, 3, 9]);
    assert_eq!(ids(&a), ids(&b));
    let values = |w: &World| -> Vec<(u128, Vec<u8>)> {
        w.components.entries.iter().map(|e| (e.0 .0.id.0, e.1.bytes.clone())).collect()
    };
    assert_eq!(values(&a), vec![(2, vec![8, 0, 0, 0]), (9, vec![7, 0, 0, 0])]);
    assert_eq!(values(&a), values(&b));
}

#[test]
fn a_transfer_from_another_owner_or_version_is_refused() {
    let mut world = world_with_entity_value([1, 0, 0, 0]);
    assert_eq!(fault(world.prepare_transfer(proposal(1, 4))), (Status::OwnershipStale, 3));
    let late = TransferProposal { base_version: WorldVersion(0), ..proposal(1, 1) };
    assert_eq!(fault(world.prepare_transfer(late)), (Status::Invalid, 5));
    let home = TransferProposal { target: RegionId(7), ..proposal(1, 1) };
    assert_eq!(fault(world.prepare_transfer(home)), (Status::Invalid, 5));
    let gone = TransferProposal { entity: entity(3), ..proposal(1, 1) };
    assert_eq!(fault(world.prepare_transfer(gone)), (Status::HandleStale, 1));
    assert_eq!(fault(world.confirm_transfer(TransferId(1))), (Status::HandleStale, 5));
}

#[test]
fn a_transfer_needs_an_epoch_to_go_to() {
    let mut world = World::new(WorldId(1));
    let mut o = options(0);
    o.ownership.epoch = OwnershipEpoch(u64::MAX);
    let mut tx = world.begin(o, capability(create())).unwrap();
    tx.create(entity(1)).unwrap();
    tx.commit().unwrap();
    world.prepare_transfer(proposal(1, u64::MAX)).unwrap();
    assert_eq!(fault(world.confirm_transfer(TransferId(1))), (Status::Limit, 1));
}

#[test]
fn a_transfer_of_a_changed_owner_is_not_confirmed() {
    let mut world = world_with_entity_value([1, 0, 0, 0]);
    world.prepare_transfer(proposal(1, 1)).unwrap();
    let mut tx = world.begin(options(1), capability(destroy())).unwrap();
    tx.destroy(entity(1)).unwrap();
    tx.commit().unwrap();
    assert_eq!(fault(world.confirm_transfer(TransferId(1))), (Status::HandleStale, 1));
    let mut o = options(2);
    o.ownership.epoch = OwnershipEpoch(6);
    let mut tx = world.begin(o, capability(create())).unwrap();
    tx.create(entity(1)).unwrap();
    tx.commit().unwrap();
    assert_eq!(fault(world.confirm_transfer(TransferId(1))), (Status::OwnershipStale, 4));
}

#[test]
fn time_and_resources_are_kept() {
    let mut world = World::new(WorldId(4));
    assert_eq!(world.id(), WorldId(4));
    world.advance_time(SimTime(12));
    assert_eq!(world.sim_time(), SimTime(12));
    let reference =
        ResourceRef { content_hash: Hash256([4; 32]), schema_hash: Hash256([5; 32]) };
    world.set_resource_ref(ResourceId(5), reference);
    let kept = world.resource_refs().get(&ResourceId(5)).unwrap();
    assert!(kept.content_hash.same(&Hash256([4; 32])));
    assert!(!kept.schema_hash.same(&Hash256([4; 32])));
    assert!(world.resource_refs().get(&ResourceId(6)).is_none());
}

#[test]
fn bytes_are_little_endian_and_cut_to_length() {
    assert_eq!(value_from_bytes(&vec![1, 2]), 513);
    assert_eq!(value_into_bytes(513, 2), vec![1, 2]);
    assert_eq!(value_into_bytes(513, 4), vec![1, 2, 0, 0]);
    assert_eq!(value_into_bytes(513, 1), vec![1]);
    let long = vec![1, 0, 0, 0, 0, 0, 0, 0, 9];
    assert_eq!(value_from_bytes(&long), 1);
}

#[test]
fn a_type_id_is_the_big_endian_value_of_its_bytes() {
    let mut bytes = [0u8; 16];
    bytes[15] = 2;
    bytes[14] = 1;
    assert_eq!(ComponentTypeId::from_bytes(bytes).0, 258);
}
