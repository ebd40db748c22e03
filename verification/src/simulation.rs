//! A simulation of falling bodies that runs by a lowered module alone.

use crate::api::{EntityId, Error};
use crate::eir::{fresh_module, WorldWrite};
use crate::program::{fall_functions, lower_physics, LoweredPhysics};
use crate::scene::{apply_writes, scene_after, write_views, BodyView, Scene};
use vstd::prelude::*;

verus! {

/// Whether a body moves.
pub open spec fn is_dynamic(b: BodyView) -> bool {
    match b.rigid_body {
        Some(rb) => rb.is_dynamic != 0,
        None => false,
    }
}

/// The ids of the bodies that move, among the first `k` entities.
pub open spec fn dynamic_ids(entities: Seq<(EntityId, BodyView)>, k: nat) -> Seq<u128>
    decreases k,
{
    if k == 0 || k > entities.len() {
        Seq::empty()
    } else {
        let ids = dynamic_ids(entities, (k - 1) as nat);
        if is_dynamic(entities[k - 1].1) {
            ids.push(entities[k - 1].0.0)
        } else {
            ids
        }
    }
}

/// Lists the bodies that move, in the order of their ids.
pub fn dynamic_bodies(scene: &Scene) -> (r: Vec<u128>)
    ensures
        r@ == dynamic_ids(scene@.entities, scene@.entities.len()),
{
    let mut ids: Vec<u128> = Vec::new();
    let mut i: usize = 0;
    while i < scene.entities.entries.len()
        invariant
            i <= scene.entities.entries.len(),
            scene@.entities.len() == scene.entities.entries.len(),
            ids@ == dynamic_ids(scene@.entities, i as nat),
        decreases scene.entities.entries.len() - i,
    {
        proof {
            assert(scene@.entities[i as int] == (
                scene.entities.entries@[i as int].0,
                scene.entities.entries@[i as int].1@,
            ));
        }
        let moves: bool = match &scene.entities.entries[i].1.rigid_body {
            Some(rb) => rb.is_dynamic != 0,
            None => false,
        };
        if moves {
            ids.push(scene.entities.entries[i].0.0);
        }
        i = i + 1;
    }
    ids
}

/// A simulation driven by a lowered module. The module is run outside; its writes are
/// applied here.
pub struct EirSimulation {
    pub scene: Scene,
    /// Bits of the step length.
    pub dt: u64,
    /// Steps taken.
    pub clock: u64,
    pub lowered: LoweredPhysics,
}

impl EirSimulation {
    /// Lowers the fall of every body that moves.
    pub fn new(scene: Scene, dt: u64) -> (r: EirSimulation)
        ensures
            r.scene == scene,
            r.dt == dt,
            r.clock == 0,
            ({
                let ids = dynamic_ids(scene@.entities, scene@.entities.len());
                &&& r.lowered.entities@ == ids
                &&& r.lowered.dt == dt
                &&& r.lowered.module@ == fresh_module(
                    fall_functions(ids, ids.len(), scene@.gravity.y, dt),
                )
            }),
    {
        let ids: Vec<u128> = dynamic_bodies(&scene);
        let lowered: LoweredPhysics = lower_physics(&ids, scene.gravity.y, dt);
        EirSimulation { scene, dt, clock: 0, lowered }
    }

    /// Ends a step with the writes of a run of the module.
    pub fn finish_step(&mut self, writes: &Vec<WorldWrite>) -> (r: Result<(), Error>)
        requires
            old(self).clock < u64::MAX,
        ensures
            (final(self).scene@, r) == scene_after(old(self).scene@, write_views(writes@)),
            final(self).clock == (if r is Ok {
                old(self).clock + 1
            } else {
                old(self).clock as int
            }),
            final(self).dt == old(self).dt,
            final(self).lowered == old(self).lowered,
    {
        let r: Result<(), Error> = apply_writes(&mut self.scene, writes);
        if r.is_ok() {
            self.clock = self.clock + 1;
        }
        r
    }
}

} // verus!
