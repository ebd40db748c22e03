//! The executable instruction set that world programs are lowered to.

use crate::api::{no_hash, zero_hash, Hash256};
use vstd::prelude::*;

verus! {

/// What one instruction does.
#[derive(Clone, Copy, Debug, PartialEq, Eq, Structural)]
pub enum Opcode {
    Nop,
    Const,
    ReadView,
    WriteView,
    ReadSlotDyn,
    WriteSlotDyn,
    ReadFieldCell,
    WriteFieldCell,
    FieldLaplacian,
    FieldDiffuse,
    FieldPoisson,
    FieldWave,
    SpawnInto,
    Add,
    Sub,
    Mul,
    Div,
    Rem,
    Lt,
    Le,
    Gt,
    Ge,
    Eq,
    Ne,
    Select,
    Sin,
    Cos,
    Exp,
    Ln,
    Sqrt,
    Pow,
    Abs,
    Floor,
    Ceil,
    Round,
    Sign,
    Log10,
    Log2,
    Sinh,
    Cosh,
    Tanh,
    Asin,
    Acos,
    Atan,
    Atan2,
    Hypot,
    Print,
    ReadEvent,
    Random,
    EmitEvent,
    FiredAt,
    FiredEvery,
    ScheduleEvent,
    NeighborCount,
    NearestDist,
    NeighborMean,
    NearestOffsetX,
    NearestOffsetY,
    NearestOffsetZ,
    Step,
    Call,
    CondBr,
    Return,
}

/// The type of an instruction's result.
#[derive(Clone, Copy, Debug, PartialEq, Eq, Structural)]
pub enum ValueType {
    F64,
    U64,
    Bool,
}

/// A double-precision constant, by the operations that give it. A `u64` operand
/// is the bit pattern of a double unless the variant says otherwise.
#[derive(Clone, Copy, Debug, PartialEq, Eq, Structural)]
pub enum Real {
    /// The double with these bits.
    Bits(u64),
    /// The double nearest to this integer.
    Nat(u64),
    /// The double nearest to this integer.
    Int(i64),
    /// The double with the opposite sign.
    Neg(u64),
    /// The product of two doubles.
    Product(u64, u64),
    /// `dt / substeps`, the second an integer.
    Step { dt: u64, substeps: u64 },
    /// `(dt / substeps) / by`, the last two integers.
    StepOver { dt: u64, substeps: u64, by: u64 },
    /// The square of `velocity * dt / dx`.
    Courant { velocity: u64, dt: u64, dx: u64 },
}

/// Bits of `0.0`.
pub const ZERO: u64 = 0;

/// Bits of `1.0`.
pub const ONE: u64 = 0x3FF0_0000_0000_0000;

/// Bits of `2.0`.
pub const TWO: u64 = 0x4000_0000_0000_0000;

/// Bits of `-1.0`.
pub const NEG_ONE: u64 = 0xBFF0_0000_0000_0000;

/// Bits of `0.5`.
pub const HALF: u64 = 0x3FE0_0000_0000_0000;

/// Bits of `1e-12`.
pub const SOFTENING: u64 = 0x3D71_9799_812D_EA11;

/// Bits of the circle constant.
pub const PI: u64 = 0x4009_21FB_5444_2D18;

/// Bits of twice the circle constant.
pub const TWO_PI: u64 = 0x4019_21FB_5444_2D18;

/// Bits of the base of the natural logarithm.
pub const EULER: u64 = 0x4005_BF0A_8B14_5769;

/// Bits of negative infinity.
pub const NEG_INFINITY: u64 = 0xFFF0_0000_0000_0000;

/// A world component that instructions address.
#[derive(Debug)]
pub enum Component {
    Transform,
    Velocity,
    RigidBody,
    State,
    SimTime,
    /// The verdict fields of the invariants.
    Check,
    /// The activation flag of a pool slot.
    Active,
    /// A model parameter.
    Param(String),
    /// A grid field.
    Field(String),
}

/// The mathematical value of a [`Component`].
pub enum ComponentView {
    Transform,
    Velocity,
    RigidBody,
    State,
    SimTime,
    Check,
    Active,
    Param(Seq<char>),
    Field(Seq<char>),
}

impl View for Component {
    type V = ComponentView;

    open spec fn view(&self) -> ComponentView {
        match self {
            Component::Transform => ComponentView::Transform,
            Component::Velocity => ComponentView::Velocity,
            Component::RigidBody => ComponentView::RigidBody,
            Component::State => ComponentView::State,
            Component::SimTime => ComponentView::SimTime,
            Component::Check => ComponentView::Check,
            Component::Active => ComponentView::Active,
            Component::Param(name) => ComponentView::Param(name@),
            Component::Field(name) => ComponentView::Field(name@),
        }
    }
}

impl Component {
    /// A copy.
    pub fn duplicate(&self) -> (r: Component)
        ensures
            r@ == self@,
    {
        match self {
            Component::Transform => Component::Transform,
            Component::Velocity => Component::Velocity,
            Component::RigidBody => Component::RigidBody,
            Component::State => Component::State,
            Component::SimTime => Component::SimTime,
            Component::Check => Component::Check,
            Component::Active => Component::Active,
            Component::Param(name) => Component::Param(name.clone()),
            Component::Field(name) => Component::Field(name.clone()),
        }
    }
}

/// A constant operand.
#[derive(Debug)]
pub enum Immediate {
    F64(Real),
    U64(u64),
    /// One of the four 32-bit limbs of a component's identifier, lowest first.
    Limb(Component, u8),
}

/// The mathematical value of an [`Immediate`].
pub enum ImmediateView {
    F64(Real),
    U64(u64),
    Limb(ComponentView, u8),
}

impl View for Immediate {
    type V = ImmediateView;

    open spec fn view(&self) -> ImmediateView {
        match self {
            Immediate::F64(v) => ImmediateView::F64(*v),
            Immediate::U64(v) => ImmediateView::U64(*v),
            Immediate::Limb(c, i) => ImmediateView::Limb(c@, *i),
        }
    }
}

/// A component field of an entity: the byte offset within the component.
#[derive(Debug)]
pub struct ComponentRef {
    pub entity: u128,
    pub component: Component,
    pub offset: u32,
}

/// The mathematical value of a [`ComponentRef`].
pub struct ComponentRefView {
    pub entity: u128,
    pub component: ComponentView,
    pub offset: u32,
}

impl View for ComponentRef {
    type V = ComponentRefView;

    open spec fn view(&self) -> ComponentRefView {
        ComponentRefView {
            entity: self.entity,
            component: self.component@,
            offset: self.offset,
        }
    }
}

/// One instruction. Operands are register numbers, but for those of a `Call`,
/// whose first is a function id, and of a `CondBr`, whose last two are
/// instruction indices.
#[derive(Debug)]
pub struct Instruction {
    pub opcode: Opcode,
    pub result_id: u32,
    pub result_type: Option<ValueType>,
    pub operands: Vec<u32>,
    pub constant: Option<Immediate>,
    pub target: Option<ComponentRef>,
}

/// The mathematical value of an [`Instruction`].
pub struct InstructionView {
    pub opcode: Opcode,
    pub result_id: u32,
    pub result_type: Option<ValueType>,
    pub operands: Seq<u32>,
    pub constant: Option<ImmediateView>,
    pub target: Option<ComponentRefView>,
}

/// The value of an optional constant.
pub open spec fn constant_view(c: Option<Immediate>) -> Option<ImmediateView> {
    match c {
        Some(i) => Some(i@),
        None => None,
    }
}

/// The value of an optional target.
pub open spec fn target_view(t: Option<ComponentRef>) -> Option<ComponentRefView> {
    match t {
        Some(r) => Some(r@),
        None => None,
    }
}

impl View for Instruction {
    type V = InstructionView;

    open spec fn view(&self) -> InstructionView {
        InstructionView {
            opcode: self.opcode,
            result_id: self.result_id,
            result_type: self.result_type,
            operands: self.operands@,
            constant: constant_view(self.constant),
            target: target_view(self.target),
        }
    }
}

impl Instruction {
    /// A copy.
    pub fn duplicate(&self) -> (r: Instruction)
        ensures
            r@ == self@,
    {
        let constant: Option<Immediate> = match &self.constant {
            None => None,
            Some(Immediate::F64(v)) => Some(Immediate::F64(*v)),
            Some(Immediate::U64(v)) => Some(Immediate::U64(*v)),
            Some(Immediate::Limb(c, i)) => Some(Immediate::Limb(c.duplicate(), *i)),
        };
        let target: Option<ComponentRef> = match &self.target {
            None => None,
            Some(t) => Some(cr(t.entity, t.component.duplicate(), t.offset)),
        };
        let operands: Vec<u32> = self.operands.clone();
        proof {
            assert(operands@ =~= self.operands@);
        }
        instr(self.opcode, self.result_id, self.result_type, operands, constant, target)
    }
}

/// The values of a sequence of instructions.
pub open spec fn code(s: Seq<Instruction>) -> Seq<InstructionView> {
    s.map_values(|i: Instruction| i@)
}

/// A function: its id, the effects it may have, the number of arguments, and its
/// instructions.
#[derive(Debug)]
pub struct Function {
    pub id: u64,
    pub effect_mask: u64,
    pub argument_count: u32,
    pub instructions: Vec<Instruction>,
}

/// The mathematical value of a [`Function`].
pub struct FunctionView {
    pub id: u64,
    pub effect_mask: u64,
    pub argument_count: u32,
    pub instructions: Seq<InstructionView>,
}

impl View for Function {
    type V = FunctionView;

    open spec fn view(&self) -> FunctionView {
        FunctionView {
            id: self.id,
            effect_mask: self.effect_mask,
            argument_count: self.argument_count,
            instructions: code(self.instructions@),
        }
    }
}

impl Function {
    /// A copy.
    pub fn duplicate(&self) -> (r: Function)
        ensures
            r@ == self@,
    {
        let mut instructions: Vec<Instruction> = Vec::new();
        let mut i: usize = 0;
        while i < self.instructions.len()
            invariant
                i <= self.instructions.len(),
                instructions@.len() == i,
                forall|k: int|
                    0 <= k < i ==> (#[trigger] instructions@[k])@ == self.instructions@[k]@,
            decreases self.instructions.len() - i,
        {
            instructions.push(self.instructions[i].duplicate());
            i = i + 1;
        }
        proof {
            assert(code(instructions@) =~= code(self.instructions@));
        }
        Function {
            id: self.id,
            effect_mask: self.effect_mask,
            argument_count: self.argument_count,
            instructions,
        }
    }
}

/// The values of a sequence of functions.
pub open spec fn functions_view(s: Seq<Function>) -> Seq<FunctionView> {
    s.map_values(|f: Function| f@)
}

/// Effect bit: the function reads the world.
pub const EFFECT_READ_WORLD: u64 = 1;

/// Effect bit: the function writes the world.
pub const EFFECT_WRITE_WORLD: u64 = 2;

/// Both world effects.
pub const EFFECT_WORLD: u64 = 3;

/// A module: the hashes of what it was made from, the kind of target, and its
/// functions in execution order.
#[derive(Debug)]
pub struct EirModule {
    pub module_hash: Hash256,
    pub schema_set_hash: Hash256,
    pub domain_ir_hash: Hash256,
    pub target_kind: u32,
    pub functions: Vec<Function>,
}

/// The mathematical value of an [`EirModule`].
pub struct EirModuleView {
    pub module_hash: Seq<u8>,
    pub schema_set_hash: Seq<u8>,
    pub domain_ir_hash: Seq<u8>,
    pub target_kind: u32,
    pub functions: Seq<FunctionView>,
}

impl View for EirModule {
    type V = EirModuleView;

    open spec fn view(&self) -> EirModuleView {
        EirModuleView {
            module_hash: self.module_hash@,
            schema_set_hash: self.schema_set_hash@,
            domain_ir_hash: self.domain_ir_hash@,
            target_kind: self.target_kind,
            functions: functions_view(self.functions@),
        }
    }
}

/// A module that is not hashed yet.
pub open spec fn fresh_module(functions: Seq<FunctionView>) -> EirModuleView {
    EirModuleView {
        module_hash: zero_hash(),
        schema_set_hash: zero_hash(),
        domain_ir_hash: zero_hash(),
        target_kind: 0,
        functions,
    }
}

/// Builds a module that is not hashed yet.
pub fn new_module(functions: Vec<Function>) -> (m: EirModule)
    ensures
        m@ == fresh_module(functions_view(functions@)),
{
    EirModule {
        module_hash: no_hash(),
        schema_set_hash: no_hash(),
        domain_ir_hash: no_hash(),
        target_kind: 0,
        functions,
    }
}

/// A write that a run of a module asks for: the bits of the value.
#[derive(Debug)]
pub struct WorldWrite {
    pub entity: u128,
    pub component: Component,
    pub offset: u32,
    pub value: u64,
}

/// The instruction with the given parts.
pub fn instr(
    opcode: Opcode,
    result_id: u32,
    result_type: Option<ValueType>,
    operands: Vec<u32>,
    constant: Option<Immediate>,
    target: Option<ComponentRef>,
) -> (r: Instruction)
    ensures
        r@ == (InstructionView {
            opcode,
            result_id,
            result_type,
            operands: operands@,
            constant: constant_view(constant),
            target: target_view(target),
        }),
{
    Instruction { opcode, result_id, result_type, operands, constant, target }
}

/// The reference with the given parts.
pub fn cr(entity: u128, component: Component, offset: u32) -> (r: ComponentRef)
    ensures
        r@ == (ComponentRefView { entity, component: component@, offset }),
{
    ComponentRef { entity, component, offset }
}

/// Byte size of one state slot.
pub const STATE_SLOT_BYTES: u32 = 8;

/// Byte offset of `position.x` in a transform.
pub const POS_X: u32 = 0;

/// Byte offset of `position.y` in a transform.
pub const POS_Y: u32 = 8;

/// Byte offset of `position.z` in a transform.
pub const POS_Z: u32 = 16;

/// Byte offset of `linear.x` in a velocity.
pub const VEL_X: u32 = 0;

/// Byte offset of `linear.y` in a velocity.
pub const VEL_Y: u32 = 8;

/// Byte offset of `linear.z` in a velocity.
pub const VEL_Z: u32 = 16;

/// Byte offset of the mass in a rigid body.
pub const MASS: u32 = 0;

/// Byte offset of the dynamic flag in a rigid body.
pub const IS_DYNAMIC: u32 = 24;

/// Byte offset of the seconds in the simulation clock.
pub const SIM_TIME: u32 = 0;

/// Byte offset of a state slot, modulo the range of an offset.
pub open spec fn slot_offset(i: usize) -> u32 {
    (i as u32).wrapping_mul(STATE_SLOT_BYTES)
}

/// Byte offset of state slot `i` in the state component.
pub fn state_slot(i: usize) -> (r: u32)
    ensures
        r == slot_offset(i),
        i * 8 <= u32::MAX ==> r == i * 8,
{
    (i as u32).wrapping_mul(STATE_SLOT_BYTES)
}

} // verus!
