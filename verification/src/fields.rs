//! Systems that run a solver over a whole grid field in one instruction.

use crate::eir::{
    code, cr, Component, ComponentView, Immediate, ImmediateView, Instruction, InstructionView,
    Opcode, Real, ValueType,
};
use crate::emit::{
    at, const_of, const_reg, const_u64_of, const_u64_reg, effect_of, emit, emit_effect, emit_state,
    fresh_reg, result_of, resumed, return_of, Emit,
};
use crate::rules::{end, ended, EirSystem};
use vstd::prelude::*;

verus! {

/// Diffusion: every step advances each cell by `rate` times its Laplacian.
pub struct DiffuseSystem {
    pub field: String,
    /// Bits of the rate.
    pub rate: u64,
    pub width: u32,
    pub height: u32,
    pub depth: u32,
    /// The one entity whose function carries the sweep.
    pub run_on: u128,
}

/// The function of a solver with the given operands.
pub open spec fn solver(
    s: Emit,
    opcode: Opcode,
    operands: Seq<u32>,
    field: Seq<char>,
    width: u32,
) -> Seq<InstructionView> {
    return_of(
        effect_of(s, opcode, operands, Some(at(0, ComponentView::Field(field), width))),
    ).out
}

fn emit_solver(
    opcode: Opcode,
    operands: Vec<u32>,
    field: &String,
    width: u32,
    out: &mut Vec<Instruction>,
)
    ensures
        forall|next: u32|
            code(final(out)@) == #[trigger] solver(
                emit_state(next, old(out)@),
                opcode,
                operands@,
                field@,
                width,
            ),
{
    emit_effect(opcode, operands, Some(cr(0, Component::Field(field.clone()), width)), out);
    end(out);
}

/// The function of a diffusion for one entity.
pub open spec fn diffuse_lowered(
    field: Seq<char>,
    rate: u64,
    width: u32,
    run_on: u128,
    entity: u128,
    out: Seq<InstructionView>,
) -> Seq<InstructionView> {
    if entity != run_on {
        ended(out)
    } else {
        let (s, r) = const_of(resumed(out), Real::Bits(rate));
        solver(s, Opcode::FieldDiffuse, seq![r], field, width)
    }
}

impl EirSystem for DiffuseSystem {
    open spec fn title(&self) -> Seq<char> {
        "physics.diffuse"@
    }

    open spec fn lowered(&self, entity: u128, out: Seq<InstructionView>) -> Seq<InstructionView> {
        diffuse_lowered(self.field@, self.rate, self.width, self.run_on, entity, out)
    }

    fn name(&self) -> (r: &'static str) {
        "physics.diffuse"
    }

    fn lower_entity(&self, entity: u128, out: &mut Vec<Instruction>) {
        if entity != self.run_on {
            end(out);
            return ;
        }
        let mut next: u32 = fresh_reg(out);
        let r: u32 = const_reg(Real::Bits(self.rate), &mut next, out);
        let operands: Vec<u32> = vec![r];
        proof {
            assert(operands@ =~= seq![r]);
        }
        let ghost before = emit_state(next, out@);
        emit_solver(Opcode::FieldDiffuse, operands, &self.field, self.width, out);
        proof {
            assert(code(out@) == solver(
                before,
                Opcode::FieldDiffuse,
                seq![r],
                self.field@,
                self.width,
            ));
        }
    }
}

/// The constants for the first `n` limbs of a field's identifier; zeros without a
/// field.
pub open spec fn field_limbs(field: Option<Seq<char>>, n: nat, s: Emit) -> (Emit, Seq<u32>)
    decreases n,
{
    if n == 0 {
        (s, Seq::empty())
    } else {
        let (s, regs) = field_limbs(field, (n - 1) as nat, s);
        let (s, r) = match field {
            None => const_u64_of(s, 0),
            Some(name) => result_of(
                s,
                Opcode::Const,
                ValueType::U64,
                Seq::empty(),
                Some(ImmediateView::Limb(ComponentView::Field(name), (n - 1) as u8)),
                None,
            ),
        };
        (s, regs.push(r))
    }
}

/// The value of an optional name.
pub open spec fn name_view(name: Option<String>) -> Option<Seq<char>> {
    match name {
        None => None,
        Some(n) => Some(n@),
    }
}

fn emit_limbs(field: &Option<String>, next: &mut u32, out: &mut Vec<Instruction>) -> (regs: Vec<
    u32,
>)
    ensures
        (emit_state(*final(next), final(out)@), regs@) == field_limbs(
            name_view(*field),
            4,
            emit_state(*old(next), old(out)@),
        ),
{
    let ghost start = emit_state(*next, out@);
    let mut regs: Vec<u32> = Vec::new();
    let mut i: usize = 0;
    while i < 4
        invariant
            i <= 4,
            (emit_state(*next, out@), regs@) == field_limbs(name_view(*field), i as nat, start),
        decreases 4 - i,
    {
        let r: u32 = match field {
            None => const_u64_reg(0, next, out),
            Some(name) => {
                let none: Vec<u32> = Vec::new();
                let limb = Immediate::Limb(Component::Field(name.clone()), i as u8);
                emit(Opcode::Const, ValueType::U64, none, Some(limb), None, next, out)
            },
        };
        regs.push(r);
        i = i + 1;
    }
    regs
}

/// Relaxation of the Poisson equation: each step runs `iters` sweeps over the
/// interior cells; boundary cells are held. Without a source it solves the Laplace
/// equation.
pub struct PoissonSystem {
    pub field: String,
    pub source: Option<String>,
    pub iters: u32,
    /// Bits of the factor of the source.
    pub scale: u64,
    pub width: u32,
    pub height: u32,
    pub depth: u32,
    /// Bits of the cell size.
    pub dx: u64,
    /// The one entity whose function carries the sweeps.
    pub run_on: u128,
}

/// The function of a Poisson solver for one entity.
pub open spec fn poisson_lowered(
    field: Seq<char>,
    source: Option<Seq<char>>,
    iters: u32,
    scale: u64,
    width: u32,
    run_on: u128,
    entity: u128,
    out: Seq<InstructionView>,
) -> Seq<InstructionView> {
    if entity != run_on {
        ended(out)
    } else {
        let (s, limbs) = field_limbs(source, 4, resumed(out));
        let (s, n) = const_u64_of(s, iters as u64);
        let (s, factor) = const_of(s, Real::Bits(scale));
        solver(s, Opcode::FieldPoisson, limbs.push(n).push(factor), field, width)
    }
}

impl EirSystem for PoissonSystem {
    open spec fn title(&self) -> Seq<char> {
        "physics.poisson"@
    }

    open spec fn lowered(&self, entity: u128, out: Seq<InstructionView>) -> Seq<InstructionView> {
        poisson_lowered(
            self.field@,
            name_view(self.source),
            self.iters,
            self.scale,
            self.width,
            self.run_on,
            entity,
            out,
        )
    }

    fn name(&self) -> (r: &'static str) {
        "physics.poisson"
    }

    fn lower_entity(&self, entity: u128, out: &mut Vec<Instruction>) {
        if entity != self.run_on {
            end(out);
            return ;
        }
        let mut next: u32 = fresh_reg(out);
        let mut operands: Vec<u32> = emit_limbs(&self.source, &mut next, out);
        let n: u32 = const_u64_reg(self.iters as u64, &mut next, out);
        operands.push(n);
        let factor: u32 = const_reg(Real::Bits(self.scale), &mut next, out);
        operands.push(factor);
        let ghost before = emit_state(next, out@);
        let ghost ops = operands@;
        emit_solver(Opcode::FieldPoisson, operands, &self.field, self.width, out);
        proof {
            assert(code(out@) == solver(
                before,
                Opcode::FieldPoisson,
                ops,
                self.field@,
                self.width,
            ));
        }
    }
}

/// The wave equation, integrated by a leapfrog over two fields: the current values
/// and those of the step before.
pub struct WaveSystem {
    pub field: String,
    /// The field of the step before.
    pub prev: String,
    /// Bits of the wave speed.
    pub velocity: u64,
    /// Bits of the step length.
    pub dt: u64,
    /// Bits of the amplitude kept per step.
    pub damping: u64,
    /// Bits of the absorption at the boundary.
    pub absorb: u64,
    /// Cells over which the boundary absorbs.
    pub absorb_width: u32,
    pub width: u32,
    pub height: u32,
    pub depth: u32,
    /// Bits of the cell size.
    pub dx: u64,
    /// The one entity whose function carries the step.
    pub run_on: u128,
}

/// The mathematical value of a [`WaveSystem`].
pub struct WaveView {
    pub field: Seq<char>,
    pub prev: Seq<char>,
    pub velocity: u64,
    pub dt: u64,
    pub damping: u64,
    pub absorb: u64,
    pub absorb_width: u32,
    pub width: u32,
    pub height: u32,
    pub depth: u32,
    pub dx: u64,
    pub run_on: u128,
}

impl View for WaveSystem {
    type V = WaveView;

    open spec fn view(&self) -> WaveView {
        WaveView {
            field: self.field@,
            prev: self.prev@,
            velocity: self.velocity,
            dt: self.dt,
            damping: self.damping,
            absorb: self.absorb,
            absorb_width: self.absorb_width,
            width: self.width,
            height: self.height,
            depth: self.depth,
            dx: self.dx,
            run_on: self.run_on,
        }
    }
}

/// The function of a wave solver for one entity.
pub open spec fn wave_lowered(sys: WaveView, entity: u128, out: Seq<InstructionView>) -> Seq<
    InstructionView,
> {
    if entity != sys.run_on {
        ended(out)
    } else {
        let (s, limbs) = field_limbs(Some(sys.prev), 4, resumed(out));
        let (s, cfl) = const_of(
            s,
            Real::Courant { velocity: sys.velocity, dt: sys.dt, dx: sys.dx },
        );
        let (s, damping) = const_of(s, Real::Bits(sys.damping));
        let (s, absorb) = const_of(s, Real::Bits(sys.absorb));
        let (s, cells) = const_of(s, Real::Nat(sys.absorb_width as u64));
        solver(
            s,
            Opcode::FieldWave,
            limbs.push(cfl).push(damping).push(absorb).push(cells),
            sys.field,
            sys.width,
        )
    }
}

impl EirSystem for WaveSystem {
    open spec fn title(&self) -> Seq<char> {
        "physics.wave"@
    }

    open spec fn lowered(&self, entity: u128, out: Seq<InstructionView>) -> Seq<InstructionView> {
        wave_lowered(self@, entity, out)
    }

    fn name(&self) -> (r: &'static str) {
        "physics.wave"
    }

    fn lower_entity(&self, entity: u128, out: &mut Vec<Instruction>) {
        if entity != self.run_on {
            end(out);
            return ;
        }
        let mut next: u32 = fresh_reg(out);
        let prev: Option<String> = Some(self.prev.clone());
        let mut operands: Vec<u32> = emit_limbs(&prev, &mut next, out);
        let courant = Real::Courant { velocity: self.velocity, dt: self.dt, dx: self.dx };
        let cfl: u32 = const_reg(courant, &mut next, out);
        operands.push(cfl);
        let damping: u32 = const_reg(Real::Bits(self.damping), &mut next, out);
        operands.push(damping);
        let absorb: u32 = const_reg(Real::Bits(self.absorb), &mut next, out);
        operands.push(absorb);
        let cells: u32 = const_reg(Real::Nat(self.absorb_width as u64), &mut next, out);
        operands.push(cells);
        let ghost before = emit_state(next, out@);
        let ghost ops = operands@;
        emit_solver(Opcode::FieldWave, operands, &self.field, self.width, out);
        proof {
            assert(code(out@) == solver(before, Opcode::FieldWave, ops, self.field@, self.width));
        }
    }
}

} // verus!
