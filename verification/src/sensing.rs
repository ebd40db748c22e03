//! Which instructions read entities, and which write them.

use crate::eir::{
    ComponentRefView, ComponentView, ImmediateView, InstructionView, Opcode, ValueType,
};
use crate::emit::{effect_of, effect_view, result_of, Emit};
use crate::lower::noise_of;
use vstd::prelude::*;

verus! {

/// Whether an instruction reads a slot or a property of an entity.
pub open spec fn senses(i: InstructionView) -> bool {
    i.opcode == Opcode::ReadSlotDyn || i.opcode == Opcode::ReadView && match i.target {
        Some(at) => {
            ||| at.component == ComponentView::State
            ||| at.component == ComponentView::Transform
            ||| at.component == ComponentView::Velocity
            ||| at.component == ComponentView::RigidBody
        },
        None => false,
    }
}

/// Whether an instruction writes an entity.
pub open spec fn stores(i: InstructionView) -> bool {
    i.opcode == Opcode::WriteView || i.opcode == Opcode::WriteSlotDyn
}

/// Whether some code goes on from other code, with reads of entities only where `r`
/// allows them, and with writes only where `w` does.
#[verifier::opaque]
pub open spec fn adds(
    a: Seq<InstructionView>,
    b: Seq<InstructionView>,
    r: bool,
    w: bool,
) -> bool {
    &&& a.len() <= b.len()
    &&& forall|i: int| 0 <= i < a.len() ==> #[trigger] b[i] == a[i]
    &&& forall|i: int|
        a.len() <= i < b.len() ==> (senses(#[trigger] b[i]) ==> r) && (stores(b[i]) ==> w)
}

pub broadcast proof fn lemma_adds_nothing(a: Seq<InstructionView>, r: bool, w: bool)
    ensures
        #[trigger] adds(a, a, r, w),
{
    reveal(adds);
}

pub broadcast proof fn lemma_adds_on(
    a: Seq<InstructionView>,
    b: Seq<InstructionView>,
    c: Seq<InstructionView>,
    r: bool,
    w: bool,
)
    requires
        #[trigger] adds(a, b, r, w),
        #[trigger] adds(b, c, r, w),
    ensures
        adds(a, c, r, w),
{
    reveal(adds);
}

pub broadcast proof fn lemma_adds_result(
    s: Emit,
    opcode: Opcode,
    ty: ValueType,
    operands: Seq<u32>,
    constant: Option<ImmediateView>,
    target: Option<ComponentRefView>,
)
    ensures
        ({
            let (t, _) = #[trigger] result_of(s, opcode, ty, operands, constant, target);
            let i = t.out.last();
            adds(s.out, t.out, senses(i), stores(i)) && (!stores(i) ==> adds(
                s.out,
                t.out,
                true,
                false,
            ))
        }),
{
    reveal(adds);
}

pub broadcast proof fn lemma_adds_effect(
    s: Emit,
    opcode: Opcode,
    operands: Seq<u32>,
    target: Option<ComponentRefView>,
)
    ensures
        ({
            let t = #[trigger] effect_of(s, opcode, operands, target);
            let i = effect_view(opcode, operands, target);
            adds(s.out, t.out, senses(i), stores(i)) && (!stores(i) ==> adds(
                s.out,
                t.out,
                true,
                false,
            ))
        }),
{
    reveal(adds);
}

pub broadcast group group_sensing {
    lemma_adds_nothing,
    lemma_adds_on,
    lemma_adds_result,
    lemma_adds_effect,
}

/// The draw of a random number reads and writes no entity.
pub proof fn lemma_noise_adds(s: Emit)
    ensures
        adds(s.out, noise_of(s).0.out, false, false),
{
    reveal(adds);
    let t = noise_of(s).0;
    assert(t.out.len() == s.out.len() + 14);
}

/// Code that may add less may add more.
pub proof fn lemma_adds_more(
    a: Seq<InstructionView>,
    b: Seq<InstructionView>,
    r: bool,
    w: bool,
)
    requires
        adds(a, b, false, false),
    ensures
        adds(a, b, r, w),
{
    reveal(adds);
}

/// Whether some code from an index on reads no entity once it has written one.
pub open spec fn reads_first(code: Seq<InstructionView>, from: nat) -> bool {
    forall|i: int, j: int|
        from <= i < j < code.len() && stores(#[trigger] code[i]) ==> !senses(#[trigger] code[j])
}

/// Reads and then writes are in order.
pub proof fn lemma_reads_first(
    a: Seq<InstructionView>,
    b: Seq<InstructionView>,
    c: Seq<InstructionView>,
)
    requires
        adds(a, b, true, false),
        adds(b, c, false, true),
    ensures
        reads_first(c, a.len()),
{
    reveal(adds);
    assert forall|i: int, j: int|
        a.len() <= i < j < c.len() && stores(#[trigger] c[i]) implies !senses(#[trigger] c[j]) by {
        if i < b.len() {
            assert(c[i] == b[i]);
        }
    }
}

} // verus!
