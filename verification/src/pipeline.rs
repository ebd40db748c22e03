//! The stages of a physics step as domain nodes. Which solver a stage uses is left to
//! the backend; only the last stage writes the world.

use crate::api::{Access, ComponentTypeId};
use crate::eir::{EFFECT_READ_WORLD, EFFECT_WRITE_WORLD};
use crate::table::{Ordered, Table};
use vstd::prelude::*;
use vstd::string::*;

verus! {

/// The stages in the order in which they run.
#[derive(Clone, Copy, Debug, PartialEq, Eq, Structural)]
pub enum PhysicsStage {
    BroadPhase,
    NarrowPhase,
    ConstraintBuild,
    Solve,
    Integrate,
    Commit,
}

/// The place of a stage in the order.
pub open spec fn stage_rank(s: PhysicsStage) -> int {
    match s {
        PhysicsStage::BroadPhase => 0,
        PhysicsStage::NarrowPhase => 1,
        PhysicsStage::ConstraintBuild => 2,
        PhysicsStage::Solve => 3,
        PhysicsStage::Integrate => 4,
        PhysicsStage::Commit => 5,
    }
}

fn rank_of(s: &PhysicsStage) -> (r: u8)
    ensures
        r == stage_rank(*s),
{
    match s {
        PhysicsStage::BroadPhase => 0,
        PhysicsStage::NarrowPhase => 1,
        PhysicsStage::ConstraintBuild => 2,
        PhysicsStage::Solve => 3,
        PhysicsStage::Integrate => 4,
        PhysicsStage::Commit => 5,
    }
}

impl Ordered for PhysicsStage {
    open spec fn before(self, other: Self) -> bool {
        stage_rank(self) < stage_rank(other)
    }

    fn is_before(&self, other: &Self) -> (r: bool) {
        rank_of(self) < rank_of(other)
    }

    fn is_same(&self, other: &Self) -> (r: bool) {
        *self == *other
    }

    proof fn lemma_strict(a: Self) {
    }

    proof fn lemma_chained(a: Self, b: Self, c: Self) {
    }

    proof fn lemma_total(a: Self, b: Self) {
    }
}

/// A node of a domain: what it reads and writes, its effects, and the access that it
/// needs.
#[derive(Debug)]
pub struct DomainNode {
    pub domain: u32,
    pub name: String,
    pub input_schemas: Vec<ComponentTypeId>,
    pub output_schemas: Vec<ComponentTypeId>,
    pub effects: u64,
    pub required_access: Access,
}

/// A stage with its node.
#[derive(Debug)]
pub struct PhysicsNode {
    pub stage: PhysicsStage,
    pub node: DomainNode,
}

/// The mathematical value of a [`PhysicsNode`].
pub struct NodeView {
    pub stage: PhysicsStage,
    pub domain: u32,
    pub name: Seq<char>,
    pub input_schemas: Seq<ComponentTypeId>,
    pub output_schemas: Seq<ComponentTypeId>,
    pub effects: u64,
    pub required_access: Access,
}

impl View for PhysicsNode {
    type V = NodeView;

    open spec fn view(&self) -> NodeView {
        NodeView {
            stage: self.stage,
            domain: self.node.domain,
            name: self.node.name@,
            input_schemas: self.node.input_schemas@,
            output_schemas: self.node.output_schemas@,
            effects: self.node.effects,
            required_access: self.node.required_access,
        }
    }
}

/// The name of a stage's node.
pub open spec fn stage_name(s: PhysicsStage) -> Seq<char> {
    match s {
        PhysicsStage::BroadPhase => "physics.broadphase"@,
        PhysicsStage::NarrowPhase => "physics.narrowphase"@,
        PhysicsStage::ConstraintBuild => "physics.constraintbuild"@,
        PhysicsStage::Solve => "physics.solve"@,
        PhysicsStage::Integrate => "physics.integrate"@,
        PhysicsStage::Commit => "physics.commit"@,
    }
}

fn name_of(s: &PhysicsStage) -> (r: &'static str)
    ensures
        r@ == stage_name(*s),
{
    match s {
        PhysicsStage::BroadPhase => "physics.broadphase",
        PhysicsStage::NarrowPhase => "physics.narrowphase",
        PhysicsStage::ConstraintBuild => "physics.constraintbuild",
        PhysicsStage::Solve => "physics.solve",
        PhysicsStage::Integrate => "physics.integrate",
        PhysicsStage::Commit => "physics.commit",
    }
}

/// No access, but to read or to write.
pub open spec fn stage_access(writes: bool) -> Access {
    Access { read: !writes, write: writes, create: false, destroy: false, emit: false }
}

/// The node of a stage. Only the commit writes.
pub open spec fn stage_node(
    s: PhysicsStage,
    domain: u32,
    inputs: Seq<ComponentTypeId>,
    outputs: Seq<ComponentTypeId>,
) -> NodeView {
    let writes = s == PhysicsStage::Commit;
    NodeView {
        stage: s,
        domain,
        name: stage_name(s),
        input_schemas: inputs,
        output_schemas: outputs,
        effects: if writes {
            EFFECT_WRITE_WORLD
        } else {
            EFFECT_READ_WORLD
        },
        required_access: stage_access(writes),
    }
}

/// The stages in order.
pub open spec fn all_stages() -> Seq<PhysicsStage> {
    seq![
        PhysicsStage::BroadPhase,
        PhysicsStage::NarrowPhase,
        PhysicsStage::ConstraintBuild,
        PhysicsStage::Solve,
        PhysicsStage::Integrate,
        PhysicsStage::Commit,
    ]
}

fn make_node(
    s: PhysicsStage,
    domain: u32,
    inputs: &Vec<ComponentTypeId>,
    outputs: &Vec<ComponentTypeId>,
) -> (r: PhysicsNode)
    ensures
        r@ == stage_node(s, domain, inputs@, outputs@),
{
    let writes: bool = s == PhysicsStage::Commit;
    let input_schemas: Vec<ComponentTypeId> = inputs.clone();
    let output_schemas: Vec<ComponentTypeId> = outputs.clone();
    proof {
        assert(input_schemas@ =~= inputs@);
        assert(output_schemas@ =~= outputs@);
    }
    PhysicsNode {
        stage: s,
        node: DomainNode {
            domain,
            name: name_of(&s).to_owned(),
            input_schemas,
            output_schemas,
            effects: if writes {
                EFFECT_WRITE_WORLD
            } else {
                EFFECT_READ_WORLD
            },
            required_access: Access {
                read: !writes,
                write: writes,
                create: false,
                destroy: false,
                emit: false,
            },
        },
    }
}

impl PhysicsNode {
    /// The nodes of all stages, in order.
    pub fn pipeline(
        domain: u32,
        input_schemas: Vec<ComponentTypeId>,
        output_schemas: Vec<ComponentTypeId>,
    ) -> (r: Table<PhysicsStage, PhysicsNode>)
        ensures
            r@ == all_stages().map_values(
                |s: PhysicsStage|
                    (s, stage_node(s, domain, input_schemas@, output_schemas@)),
            ),
    {
        let stages: Vec<PhysicsStage> = vec![
            PhysicsStage::BroadPhase,
            PhysicsStage::NarrowPhase,
            PhysicsStage::ConstraintBuild,
            PhysicsStage::Solve,
            PhysicsStage::Integrate,
            PhysicsStage::Commit,
        ];
        proof {
            assert(stages@ =~= all_stages());
        }
        let mut entries: Vec<(PhysicsStage, PhysicsNode)> = Vec::new();
        let mut i: usize = 0;
        while i < stages.len()
            invariant
                i <= stages.len(),
                entries@.len() == i,
                forall|k: int|
                    0 <= k < i ==> (#[trigger] entries@[k]).0 == stages@[k] && entries@[k].1@
                        == stage_node(stages@[k], domain, input_schemas@, output_schemas@),
            decreases stages.len() - i,
        {
            let s: PhysicsStage = stages[i];
            entries.push((s, make_node(s, domain, &input_schemas, &output_schemas)));
            i = i + 1;
        }
        let r = Table { entries };
        proof {
            assert(r@ =~= all_stages().map_values(
                |s: PhysicsStage|
                    (s, stage_node(s, domain, input_schemas@, output_schemas@)),
            ));
        }
        r
    }
}

/// The commit is the only stage that writes the world.
pub proof fn law_only_commit_writes(
    s: PhysicsStage,
    domain: u32,
    inputs: Seq<ComponentTypeId>,
    outputs: Seq<ComponentTypeId>,
)
    ensures
        stage_node(s, domain, inputs, outputs).effects == EFFECT_WRITE_WORLD <==> s
            == PhysicsStage::Commit,
        stage_node(s, domain, inputs, outputs).required_access.write <==> s
            == PhysicsStage::Commit,
{
}

} // verus!
