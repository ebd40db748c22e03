//! Transfers of ownership between regions, and the stages of the solver.

use pwe::api::{
    ComponentTypeId, EntityId, Error, Hash256, RegionId, Status, TransferId, WorldVersion,
};
use pwe::contacts::{find_deepest, live_joints, GROUND};
use pwe::eir::{EFFECT_READ_WORLD, EFFECT_WRITE_WORLD};
use pwe::ownership::{OwnershipMachine, RegionState, TransferMessage};
use pwe::pipeline::{PhysicsNode, PhysicsStage};

/// The digest of the payload that the messages carry.
fn payload() -> Hash256 {
    Hash256([6; 32])
}

fn msg(id: u128, entity: u128, source: u64, target: u64, epoch: u64) -> TransferMessage {
    TransferMessage {
        transfer_id: TransferId(id),
        entity: EntityId(entity),
        generation: 1,
        source: RegionId(source),
        target: RegionId(target),
        expected_epoch: epoch,
        base_version: WorldVersion(0),
        schema_hash: Hash256([0; 32]),
        payload_hash: payload(),
    }
}

fn fault<T>(r: Result<T, Error>) -> (Status, u32) {
    match r {
        Ok(_) => panic!("expected an error"),
        Err(e) => (e.status, e.detail),
    }
}

fn claimed() -> OwnershipMachine {
    let mut machine = OwnershipMachine::new();
    machine.region(RegionId(1)).claim(EntityId(10), 1, WorldVersion(0));
    machine
}

#[test]
fn ownership_full_transfer_state_machine_advances_epoch() {
    let mut machine = claimed();
    let m = msg(1, 10, 1, 2, 1);
    machine.propose(m).unwrap();
    let reserved = machine.reserve(TransferId(1)).unwrap();
    assert_eq!(reserved.encoded(), m.encoded());
    let hash = machine.freeze(TransferId(1), payload()).unwrap();
    assert!(hash.same(&m.payload_hash));
    let epoch = machine.install(TransferId(1)).unwrap();
    assert_eq!(epoch, 2);
    // Idempotent duplicate install.
    assert_eq!(machine.install(TransferId(1)).unwrap(), 2);
    machine.release(TransferId(1)).unwrap();
    assert!(machine.region(RegionId(1)).owner_of(EntityId(10)).is_none());
    let region = machine.region(RegionId(2));
    let target_record = region.owner_of(EntityId(10)).unwrap();
    assert_eq!(target_record.epoch, 2);
    assert_eq!(target_record.owner_region, RegionId(2));
}

#[test]
fn ownership_rejects_stale_epoch_proposal() {
    let mut machine = claimed();
    // expected_epoch=2 but the record is at epoch 1.
    let stale = msg(1, 10, 1, 2, 2);
    assert_eq!(machine.propose(stale).unwrap_err().status, Status::OwnershipStale);
}

#[test]
fn ownership_target_must_not_already_own_same_epoch() {
    let mut machine = claimed();
    machine.region(RegionId(2)).claim(EntityId(10), 1, WorldVersion(0));
    let m = msg(1, 10, 1, 2, 1);
    machine.propose(m).unwrap();
    // Target already owns entity 10 at epoch 1 -> reserve rejects.
    assert_eq!(fault(machine.reserve(TransferId(1))), (Status::Conflict, 8));
}

#[test]
fn ownership_install_is_idempotent_and_release_requires_ack() {
    let mut machine = claimed();
    machine.propose(msg(1, 10, 1, 2, 1)).unwrap();
    machine.reserve(TransferId(1)).unwrap();
    machine.freeze(TransferId(1), payload()).unwrap();
    // Release before a durable install ack must fail.
    assert_eq!(fault(machine.release(TransferId(1))), (Status::OwnershipStale, 4));
    machine.install(TransferId(1)).unwrap();
    machine.release(TransferId(1)).unwrap();
}

fn move_entity(machine: &mut OwnershipMachine, m: TransferMessage) -> u64 {
    machine.propose(m).unwrap();
    machine.reserve(m.transfer_id).unwrap();
    machine.freeze(m.transfer_id, payload()).unwrap();
    let epoch = machine.install(m.transfer_id).unwrap();
    machine.release(m.transfer_id).unwrap();
    epoch
}

#[test]
fn an_install_beside_two_owners_changes_nothing() {
    let mut machine = claimed();
    machine.region(RegionId(3)).claim(EntityId(10), 1, WorldVersion(0));
    machine.propose(msg(1, 10, 1, 2, 1)).unwrap();
    machine.reserve(TransferId(1)).unwrap();
    machine.freeze(TransferId(1), payload()).unwrap();
    assert_eq!(fault(machine.install(TransferId(1))), (Status::Internal, 1));
    assert!(machine.region(RegionId(2)).owner_of(EntityId(10)).is_none());
    assert_eq!(machine.region(RegionId(1)).owner_of(EntityId(10)).unwrap().epoch, 1);
    // Nothing was accepted: the transfer fails alike, and there is nothing to release.
    assert_eq!(fault(machine.install(TransferId(1))), (Status::Internal, 1));
    assert_eq!(fault(machine.release(TransferId(1))), (Status::OwnershipStale, 4));
}

#[test]
fn a_late_release_leaves_a_newer_record() {
    let mut machine = claimed();
    assert_eq!(move_entity(&mut machine, msg(1, 10, 1, 2, 1)), 2);
    assert_eq!(move_entity(&mut machine, msg(2, 10, 2, 1, 2)), 3);
    // The first release comes a second time, behind the way back.
    machine.release(TransferId(1)).unwrap();
    assert_eq!(machine.region(RegionId(1)).owner_of(EntityId(10)).unwrap().epoch, 3);
    assert!(machine.region(RegionId(2)).owner_of(EntityId(10)).is_none());
    // Every region, transfer and entity stands under one key, in order.
    let regions: Vec<u64> = machine.regions.entries.iter().map(|e| e.0 .0).collect();
    assert_eq!(regions, vec![1, 2]);
    let transfers: Vec<u128> = machine.transfers.entries.iter().map(|e| e.0 .0).collect();
    assert_eq!(transfers, vec![1, 2]);
}

#[test]
fn a_second_proposal_keeps_the_first() {
    let mut machine = claimed();
    machine.propose(msg(1, 10, 1, 2, 1)).unwrap();
    machine.propose(msg(1, 10, 1, 3, 1)).unwrap();
    assert_eq!(machine.reserve(TransferId(1)).unwrap().target, RegionId(2));
}

#[test]
fn proposals_are_refused_for_what_is_wrong_with_them() {
    let mut machine = claimed();
    assert_eq!(fault(machine.propose(msg(1, 10, 1, 1, 1))), (Status::Invalid, 1));
    assert_eq!(fault(machine.propose(msg(1, 10, 3, 2, 1))), (Status::HandleStale, 1));
    assert_eq!(fault(machine.propose(msg(1, 11, 1, 2, 1))), (Status::HandleStale, 2));
    assert_eq!(fault(machine.propose(msg(1, 10, 1, 2, 2))), (Status::OwnershipStale, 1));
    let mut late = msg(1, 10, 1, 2, 1);
    late.base_version = WorldVersion(1);
    assert_eq!(fault(machine.propose(late)), (Status::OwnershipStale, 2));
}

#[test]
fn transfers_that_nobody_proposed_are_stale() {
    let mut machine = claimed();
    assert_eq!(fault(machine.reserve(TransferId(4))), (Status::HandleStale, 3));
    assert_eq!(fault(machine.freeze(TransferId(4), payload())), (Status::HandleStale, 3));
    assert_eq!(fault(machine.install(TransferId(4))), (Status::HandleStale, 3));
    assert_eq!(fault(machine.release(TransferId(4))), (Status::HandleStale, 3));
}

#[test]
fn a_payload_of_another_digest_is_refused() {
    let mut machine = claimed();
    machine.propose(msg(1, 10, 1, 2, 1)).unwrap();
    let other = Hash256([7; 32]);
    assert_eq!(fault(machine.freeze(TransferId(1), other)), (Status::Conflict, 9));
}

#[test]
fn an_install_needs_a_current_record_and_an_epoch() {
    let mut machine = claimed();
    machine.propose(msg(1, 10, 1, 2, 1)).unwrap();
    machine.region(RegionId(1)).claim(EntityId(10), 1, WorldVersion(0));
    let at = machine.regions.find(&RegionId(1)).unwrap();
    machine.regions.entries[at].1.records.entries[0].1.epoch = 3;
    assert_eq!(fault(machine.install(TransferId(1))), (Status::OwnershipStale, 3));
    machine.regions.entries[at].1.records.entries[0].1.epoch = u64::MAX;
    machine.propose(msg(2, 10, 1, 2, u64::MAX)).unwrap();
    assert_eq!(fault(machine.install(TransferId(2))), (Status::Limit, 2));
}

/// Two owners of an entity at one epoch never stand side by side.
#[test]
fn the_source_keeps_its_epoch_until_release() {
    let mut machine = claimed();
    machine.propose(msg(1, 10, 1, 2, 1)).unwrap();
    machine.install(TransferId(1)).unwrap();
    assert_eq!(machine.region(RegionId(1)).owner_of(EntityId(10)).unwrap().epoch, 1);
    assert_eq!(machine.region(RegionId(2)).owner_of(EntityId(10)).unwrap().epoch, 2);
}

#[test]
fn only_an_install_makes_an_owner() {
    let mut machine = claimed();
    machine.propose(msg(1, 10, 1, 2, 1)).unwrap();
    machine.reserve(TransferId(1)).unwrap();
    machine.freeze(TransferId(1), payload()).unwrap();
    assert!(machine.region(RegionId(2)).owner_of(EntityId(10)).is_none());
    assert_eq!(machine.region(RegionId(1)).owner_of(EntityId(10)).unwrap().epoch, 1);
    // The source moves on before the install.
    machine.propose(msg(2, 10, 1, 3, 1)).unwrap();
    machine.install(TransferId(2)).unwrap();
    machine.release(TransferId(2)).unwrap();
    assert!(machine.install(TransferId(1)).is_err());
    assert!(machine.region(RegionId(2)).owner_of(EntityId(10)).is_none());
    assert_eq!(machine.region(RegionId(3)).owner_of(EntityId(10)).unwrap().epoch, 2);
}

#[test]
fn a_claim_starts_at_the_first_epoch() {
    let mut region = RegionState::new(RegionId(3));
    region.claim(EntityId(4), 9, WorldVersion(8));
    let record = region.owner_of(EntityId(4)).unwrap();
    assert_eq!((record.epoch, record.generation), (1, 9));
    assert_eq!(record.owner_region, RegionId(3));
    assert_eq!(record.world_version, WorldVersion(8));
    assert!(region.owner_of(EntityId(5)).is_none());
}

#[test]
fn a_message_is_its_fields_in_order() {
    let bytes = msg(1, 10, 3, 2, 5).encoded();
    assert_eq!(bytes.len(), 16 + 16 + 4 + 8 + 8 + 8 + 8 + 32 + 32);
    assert_eq!((bytes[0], bytes[16], bytes[32]), (1, 10, 1));
    assert_eq!((bytes[36], bytes[44], bytes[52], bytes[60]), (3, 2, 5, 0));
    assert_eq!((bytes[68], bytes[100]), (0, 6));
}

#[test]
fn physics_pipeline_is_stage_ordered_and_solver_agnostic() {
    let pipeline = PhysicsNode::pipeline(
        7,
        vec![ComponentTypeId::from_bytes([1; 16])],
        vec![ComponentTypeId::from_bytes([2; 16])],
    );
    assert_eq!(pipeline.entries.len(), 6);
    // Only Commit declares that it writes the world; the rest are read-only stages.
    assert_eq!(pipeline.get(&PhysicsStage::Commit).unwrap().node.effects, EFFECT_WRITE_WORLD);
    assert_eq!(
        pipeline.get(&PhysicsStage::BroadPhase).unwrap().node.effects,
        EFFECT_READ_WORLD
    );
}

#[test]
fn stages_carry_their_schemas_and_names() {
    let inputs = vec![ComponentTypeId(1), ComponentTypeId(2)];
    let pipeline = PhysicsNode::pipeline(7, inputs, vec![ComponentTypeId(3)]);
    let names: Vec<String> = pipeline.entries.iter().map(|e| e.1.node.name.clone()).collect();
    assert_eq!(
        names,
        vec![
            "physics.broadphase",
            "physics.narrowphase",
            "physics.constraintbuild",
            "physics.solve",
            "physics.integrate",
            "physics.commit"
        ]
    );
    for (stage, node) in pipeline.entries.iter() {
        assert_eq!(*stage, node.stage);
        assert_eq!(node.node.domain, 7);
        assert_eq!(node.node.input_schemas.len(), 2);
        assert_eq!(node.node.output_schemas.len(), 1);
        assert_eq!(node.node.required_access.write, *stage == PhysicsStage::Commit);
    }
}

#[test]
fn joints_of_known_bodies_stay() {
    let joints = vec![(1, 2), (2, 9), (3, GROUND), (8, GROUND)];
    assert_eq!(live_joints(&joints, &vec![1, 2, 3]), vec![(1, 2)]);
    assert_eq!(
        live_joints(&joints, &vec![2, GROUND]),
        vec![(1, 2), (3, GROUND), (8, GROUND)]
    );
    assert_eq!(live_joints(&vec![], &vec![1]), vec![]);
}

#[test]
fn the_deepest_contact_is_found() {
    let depths = |v: &[f64]| -> Vec<u64> { v.iter().map(|d| d.to_bits()).collect() };
    assert_eq!(find_deepest(&depths(&[])), None);
    assert_eq!(find_deepest(&depths(&[0.5, 2.0, 1.0])), Some(1));
    assert_eq!(find_deepest(&depths(&[-0.5])), Some(0));
}
