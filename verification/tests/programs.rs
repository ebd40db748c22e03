//! Programs compiled and run. A small interpreter executes the modules on doubles; the
//! library decides everything else.

use pwe::api::{EntityId, Error, Hash256, RegionId, Status};
use pwe::bodies::{DampingSystem, GravitySystem, GroundContactSystem, IntegrateSystem};
use pwe::compile::{compile, compile_program, CompiledProgram, FUNC_BASE};
use pwe::decl::{ColliderDecl, ParsedProgram, Triple};
use pwe::diagnostics::{clear_diagnostics, diagnose, Diagnostics};
use pwe::eir::{
    Component, ComponentRef, EirModule, Immediate, Instruction, Opcode, Real, ValueType, WorldWrite,
};
use pwe::fault::Fault;
use pwe::loader::{cannot_import, Loader};
use pwe::merge::ProgramSources;
use pwe::names::{NameMap, ViewMap};
use pwe::neighbors::{averaged, nearest, neighbor_count};
use pwe::numbers::{fractions, numerals, Numbers};
use pwe::parse::parse;
use pwe::program::{lower_physics, PhysicsProgram, System};
use pwe::runtime::{
    ChannelMessage, EmittedEvent, ExecEnv, LangRuntime, QueuedEvent, RunOutcome,
};
use pwe::scene::{apply_writes, BodyState, RigidBody, Scene, SceneRuntime};
use pwe::simulation::EirSimulation;
use pwe::vm::{compile_module, identity_bytes, PweRuntime};

// ---- numbers -------------------------------------------------------------------

/// The numbers of some sources, and the quotients that they write.
fn numbers(sources: &[&str]) -> Numbers {
    let value = |text: &String| -> u64 { text.parse::<f64>().unwrap().to_bits() };
    let mut texts: NameMap<u64> = NameMap::new();
    let mut ratios: Vec<(u64, u64, u64)> = Vec::new();
    for src in sources {
        for text in numerals(src) {
            let bits = value(&text);
            texts.insert(text, bits);
        }
        for (a, b) in fractions(src) {
            let (a, b) = (value(&a), value(&b));
            ratios.push((a, b, (f64::from_bits(a) / f64::from_bits(b)).to_bits()));
        }
    }
    Numbers { texts, ratios }
}

// ---- scenes --------------------------------------------------------------------

fn bits(v: f64) -> u64 {
    v.to_bits()
}

fn triple(x: f64, y: f64, z: f64) -> Triple {
    Triple { x: bits(x), y: bits(y), z: bits(z) }
}

// ---- the interpreter -----------------------------------------------------------

const SEED: u64 = 0x9E37_79B9_7F4A_7C15;

struct Env {
    seed: u64,
    time: f64,
    step: u64,
    dt: f64,
    events: Vec<EmittedEvent>,
    queue: Vec<QueuedEvent>,
    log: Vec<String>,
}

impl Env {
    fn entering(env: &ExecEnv) -> Env {
        Env {
            seed: env.random ^ SEED,
            time: f64::from_bits(env.time),
            step: env.step,
            dt: f64::from_bits(env.step_dt),
            events: env.events.clone(),
            queue: env.queue.clone(),
            log: env.log.clone(),
        }
    }
    fn leaving(self) -> ExecEnv {
        ExecEnv {
            time: bits(self.time),
            step: self.step,
            step_dt: bits(self.dt),
            random: self.seed ^ SEED,
            events: self.events,
            queue: self.queue,
            log: self.log,
        }
    }
    fn random(&mut self) -> f64 {
        self.seed ^= self.seed << 13;
        self.seed ^= self.seed >> 7;
        self.seed ^= self.seed << 17;
        (self.seed >> 11) as f64 / (1u64 << 53) as f64
    }
}

fn fold(r: &Real) -> f64 {
    let f = f64::from_bits;
    match r {
        Real::Bits(b) => f(*b),
        Real::Nat(n) => *n as f64,
        Real::Int(n) => *n as f64,
        Real::Neg(b) => -f(*b),
        Real::Product(a, b) => f(*a) * f(*b),
        Real::Step { dt, substeps } => f(*dt) / *substeps as f64,
        Real::StepOver { dt, substeps, by } => f(*dt) / *substeps as f64 / *by as f64,
        Real::Courant { velocity, dt, dx } => {
            let c = f(*velocity) * f(*dt) / f(*dx);
            c * c
        }
    }
}

fn invalid(detail: u32) -> Error {
    Error { status: Status::EirInvalid, detail, byte_offset: 0 }
}

struct Machine<'m, 's> {
    module: &'m EirModule,
    rt: SceneRuntime<'s>,
    env: Env,
    writes: Vec<WorldWrite>,
}

fn field_name(c: &Component) -> String {
    match c {
        Component::Field(n) => n.clone(),
        _ => panic!("no field"),
    }
}

fn reference(entity: u128, component: Component, offset: u32) -> ComponentRef {
    ComponentRef { entity, component, offset }
}

impl<'m, 's> Machine<'m, 's> {
    fn write(&mut self, entity: u128, component: Component, offset: u32, value: u64) {
        self.rt.write_field(reference(entity, component.duplicate(), offset), value);
        self.writes.push(WorldWrite { entity, component, offset, value });
    }

    fn read(&self, entity: u128, component: Component, offset: u32) -> Result<u64, Error> {
        self.rt.read_field(&reference(entity, component, offset))
    }

    fn cells(&self, name: &str) -> Vec<f64> {
        let g = self.rt.scene.fields.get(name).unwrap();
        (0..g.cells.len())
            .map(|i| {
                let at = reference(0, Component::Field(name.to_string()), i as u32 * 8);
                f64::from_bits(self.rt.read_field(&at).unwrap())
            })
            .collect()
    }

    fn set_cells(&mut self, name: &str, cells: &[f64]) {
        for (i, v) in cells.iter().enumerate() {
            let at = reference(0, Component::Field(name.to_string()), i as u32 * 8);
            self.rt.write_field(at, v.to_bits());
        }
    }

    fn dims(&self, name: &str) -> (usize, usize, usize, f64) {
        let g = self.rt.scene.fields.get(name).unwrap();
        (g.width, g.height, g.depth, f64::from_bits(g.dx))
    }

    fn run(&mut self) -> Result<(), Error> {
        for k in 0..self.module.functions.len() {
            if self.module.functions[k].id < FUNC_BASE {
                self.call(k, &[])?;
            }
        }
        Ok(())
    }

    fn call(&mut self, k: usize, args: &[u64]) -> Result<u64, Error> {
        let module = self.module;
        let code: &Vec<Instruction> = &module.functions[k].instructions;
        let size = code.iter().map(|i| i.result_id).max().unwrap_or(0) as usize + 1;
        let mut regs: Vec<u64> = vec![0; size.max(args.len() + 1)];
        let mut fields: Vec<Option<String>> = vec![None; regs.len()];
        let mut truth: Vec<bool> = vec![false; regs.len()];
        for (i, a) in args.iter().enumerate() {
            regs[i + 1] = *a;
        }
        let mut pc = 0;
        while pc < code.len() {
            let ins = &code[pc];
            let op = &ins.operands;
            let raw = |i: usize| regs[op[i] as usize];
            let num = |i: usize| f64::from_bits(regs[op[i] as usize]);
            let holds = |i: usize| {
                let r = op[i] as usize;
                if truth[r] {
                    regs[r] != 0
                } else {
                    f64::from_bits(regs[r]) != 0.0
                }
            };
            let test = |f: fn(&f64, &f64) -> bool| -> Result<u64, Error> {
                let (a, b) = (num(0), num(1));
                if a.is_nan() || b.is_nan() {
                    Err(invalid(20))
                } else {
                    Ok(f(&a, &b) as u64)
                }
            };
            let mut value: u64 = 0;
            match ins.opcode {
                Opcode::Nop => {}
                Opcode::Const => match ins.constant.as_ref().unwrap() {
                    Immediate::F64(r) => value = fold(r).to_bits(),
                    Immediate::U64(v) => value = *v,
                    Immediate::Limb(c, _) => {
                        fields[ins.result_id as usize] = Some(field_name(c));
                    }
                },
                Opcode::ReadView => value = self.rt.read_field(ins.target.as_ref().unwrap())?,
                Opcode::WriteView => {
                    let t = ins.target.as_ref().unwrap();
                    let v = raw(0);
                    self.write(t.entity, t.component.duplicate(), t.offset, v);
                }
                Opcode::ReadSlotDyn => {
                    let t = ins.target.as_ref().unwrap();
                    value = self.read(t.entity, Component::State, num(0) as u32 * 8)?;
                }
                Opcode::WriteSlotDyn => {
                    let t = ins.target.as_ref().unwrap();
                    let (at, v) = (num(0) as u32 * 8, raw(1));
                    self.write(t.entity, Component::State, at, v);
                }
                Opcode::ReadFieldCell => {
                    let t = ins.target.as_ref().unwrap();
                    let idx = num(1) as u32 * t.offset + num(0) as u32;
                    value = self.read(0, t.component.duplicate(), idx * 8)?;
                }
                Opcode::WriteFieldCell => {
                    let t = ins.target.as_ref().unwrap();
                    let idx = num(1) as u32 * t.offset + num(0) as u32;
                    let v = raw(2);
                    self.write(0, t.component.duplicate(), idx * 8, v);
                }
                Opcode::FieldLaplacian => {
                    let t = ins.target.as_ref().unwrap();
                    let name = field_name(&t.component);
                    let s = self.rt.stencil(&name, raw(0), raw(1))?;
                    let f = f64::from_bits;
                    let dx = self.dims(&name).3;
                    let around = f(s.left) + f(s.right) + f(s.up) + f(s.down) + f(s.back) + f(s.front);
                    value = ((around - 6.0 * f(s.center)) / (dx * dx)).to_bits();
                }
                Opcode::FieldDiffuse => {
                    let name = field_name(&ins.target.as_ref().unwrap().component);
                    let rate = num(0);
                    let next = sweep(&self.cells(&name), self.dims(&name), |u, lap| u + rate * lap);
                    self.set_cells(&name, &next);
                }
                Opcode::FieldWave => {
                    let name = field_name(&ins.target.as_ref().unwrap().component);
                    let prev = fields[op[0] as usize].clone().unwrap();
                    let (cfl, damping) = (num(4), num(5));
                    let before = self.cells(&prev);
                    let now = self.cells(&name);
                    let mut k = 0;
                    let next = sweep(&now, self.dims(&name), |u, lap| {
                        let v = 2.0 * u - before[k] + cfl * lap;
                        k += 1;
                        v * damping
                    });
                    self.set_cells(&prev, &now);
                    self.set_cells(&name, &next);
                }
                Opcode::FieldPoisson => {
                    let name = field_name(&ins.target.as_ref().unwrap().component);
                    let source = fields[op[0] as usize].clone();
                    let (iters, scale) = (raw(4), num(5));
                    let (w, h, d, dx) = self.dims(&name);
                    let rho = match source {
                        Some(s) => self.cells(&s),
                        None => vec![0.0; w * h * d],
                    };
                    let mut u = self.cells(&name);
                    for _ in 0..iters {
                        relax(&mut u, &rho, scale * dx * dx, (w, h, d));
                    }
                    self.set_cells(&name, &u);
                }
                Opcode::SpawnInto => {
                    let base = (0..4).fold(0u128, |b, i| b | (raw(i) as u128) << (32 * i));
                    let count = raw(4) as u128;
                    let caller = ins.target.as_ref().unwrap().entity;
                    for slot in base..base + count {
                        if self.read(slot, Component::Active, 0)? == 0 {
                            for k in 0..16u32 {
                                let v = self.read(caller, Component::State, k * 8)?;
                                self.write(slot, Component::State, k * 8, v);
                            }
                            self.write(slot, Component::Active, 0, bits(1.0));
                            break;
                        }
                    }
                }
                Opcode::Add => value = (num(0) + num(1)).to_bits(),
                Opcode::Sub => value = (num(0) - num(1)).to_bits(),
                Opcode::Mul => value = (num(0) * num(1)).to_bits(),
                Opcode::Div => value = (num(0) / num(1)).to_bits(),
                Opcode::Rem => value = (num(0) % num(1)).to_bits(),
                Opcode::Lt => value = test(|a, b| a < b)?,
                Opcode::Le => value = test(|a, b| a <= b)?,
                Opcode::Gt => value = test(|a, b| a > b)?,
                Opcode::Ge => value = test(|a, b| a >= b)?,
                Opcode::Eq => value = test(|a, b| a == b)?,
                Opcode::Ne => value = test(|a, b| a != b)?,
                Opcode::Select => value = if holds(0) { raw(1) } else { raw(2) },
                Opcode::Sin => value = num(0).sin().to_bits(),
                Opcode::Cos => value = num(0).cos().to_bits(),
                Opcode::Exp => value = num(0).exp().to_bits(),
                Opcode::Ln => value = num(0).ln().to_bits(),
                Opcode::Sqrt => value = num(0).sqrt().to_bits(),
                Opcode::Pow => value = num(0).powf(num(1)).to_bits(),
                Opcode::Abs => value = num(0).abs().to_bits(),
                Opcode::Floor => value = num(0).floor().to_bits(),
                Opcode::Ceil => value = num(0).ceil().to_bits(),
                Opcode::Round => value = num(0).round().to_bits(),
                Opcode::Sign => {
                    let x = num(0);
                    value = bits(if x > 0.0 {
                        1.0
                    } else if x < 0.0 {
                        -1.0
                    } else {
                        0.0
                    });
                }
                Opcode::Log10 => value = num(0).log10().to_bits(),
                Opcode::Log2 => value = num(0).log2().to_bits(),
                Opcode::Sinh => value = num(0).sinh().to_bits(),
                Opcode::Cosh => value = num(0).cosh().to_bits(),
                Opcode::Tanh => value = num(0).tanh().to_bits(),
                Opcode::Asin => value = num(0).asin().to_bits(),
                Opcode::Acos => value = num(0).acos().to_bits(),
                Opcode::Atan => value = num(0).atan().to_bits(),
                Opcode::Atan2 => value = num(0).atan2(num(1)).to_bits(),
                Opcode::Hypot => value = num(0).hypot(num(1)).to_bits(),
                Opcode::Print => {
                    value = raw(0);
                    self.env.log.push(format!("{}", f64::from_bits(value)));
                }
                Opcode::ReadEvent => {
                    let kind = num(0) as u64;
                    let last = self.env.events.iter().rev().find(|e| e.kind == kind);
                    value = last.map(|e| e.payload).unwrap_or(0);
                }
                Opcode::Random => value = self.env.random().to_bits(),
                Opcode::EmitEvent => {
                    let e = EmittedEvent { kind: num(0) as u64, payload: raw(1) };
                    self.env.events.push(e);
                }
                Opcode::FiredAt => {
                    let (t, at) = (self.env.time, num(0));
                    value = bits((t <= at && at < t + self.env.dt) as u8 as f64);
                }
                Opcode::FiredEvery => {
                    let (t, p) = (self.env.time, num(0));
                    let next = (t / p).ceil() * p;
                    value = bits((next < t + self.env.dt) as u8 as f64);
                }
                Opcode::ScheduleEvent => {
                    if num(0) != 0.0 {
                        let due = bits(self.env.time + num(1));
                        let e = QueuedEvent { due, kind: num(2) as u64, payload: raw(3) };
                        self.env.queue.push(e);
                    }
                }
                Opcode::NeighborCount => {
                    let around = self.around(ins.target.as_ref().unwrap().entity)?;
                    value = bits(neighbor_count(&distances(&around), raw(0)) as f64);
                }
                Opcode::NearestDist => {
                    let around = self.around(ins.target.as_ref().unwrap().entity)?;
                    value = match nearest(&distances(&around)) {
                        Some(i) => bits(around[i].1),
                        None => bits(f64::MAX),
                    };
                }
                Opcode::NeighborMean => {
                    let around = self.around(ins.target.as_ref().unwrap().entity)?;
                    let slot = num(0) as u32;
                    let kept = averaged(&distances(&around), raw(1));
                    let mut sum = 0.0;
                    for i in kept.iter() {
                        let v = self.read(around[*i].0, Component::State, slot * 8)?;
                        sum += f64::from_bits(v);
                    }
                    value = bits(if kept.is_empty() { 0.0 } else { sum / kept.len() as f64 });
                }
                Opcode::NearestOffsetX | Opcode::NearestOffsetY | Opcode::NearestOffsetZ => {
                    let around = self.around(ins.target.as_ref().unwrap().entity)?;
                    let off = match nearest(&distances(&around)) {
                        Some(i) => around[i].2,
                        None => [0.0; 3],
                    };
                    value = bits(match ins.opcode {
                        Opcode::NearestOffsetX => off[0],
                        Opcode::NearestOffsetY => off[1],
                        _ => off[2],
                    });
                }
                Opcode::Step => value = bits(self.env.step as f64),
                Opcode::Call => {
                    let id = op[0] as u64;
                    let at = self.module.functions.iter().position(|f| f.id == id).unwrap();
                    let args: Vec<u64> = (1..op.len()).map(raw).collect();
                    value = self.call(at, &args)?;
                }
                Opcode::CondBr => {
                    pc = if holds(0) { op[1] as usize } else { op[2] as usize };
                    continue;
                }
                Opcode::Return => {
                    return Ok(if op.is_empty() { 0 } else { raw(0) });
                }
            }
            if ins.result_id != 0 {
                regs[ins.result_id as usize] = value;
                truth[ins.result_id as usize] = ins.result_type == Some(ValueType::Bool);
            }
            pc += 1;
        }
        panic!("a function without an end");
    }

    /// The other entities with their distances and offsets.
    fn around(&self, id: u128) -> Result<Vec<(u128, f64, [f64; 3])>, Error> {
        let f = f64::from_bits;
        let o = self.rt.position_of(id)?;
        Ok(self
            .rt
            .others(id)
            .iter()
            .map(|(k, p)| {
                let d = [f(p.x) - f(o.x), f(p.y) - f(o.y), f(p.z) - f(o.z)];
                (*k, (d[0] * d[0] + d[1] * d[1] + d[2] * d[2]).sqrt(), d)
            })
            .collect())
    }
}

fn distances(around: &[(u128, f64, [f64; 3])]) -> Vec<u64> {
    around.iter().map(|o| o.1.to_bits()).collect()
}

/// Every cell with its Laplacian, neighbours past the edge being the cell itself.
fn sweep(
    u: &[f64],
    (w, h, d, dx): (usize, usize, usize, f64),
    mut f: impl FnMut(f64, f64) -> f64,
) -> Vec<f64> {
    let at = |i: usize, j: usize, k: usize| u[(k * h + j) * w + i];
    let mut out = Vec::new();
    for k in 0..d {
        for j in 0..h {
            for i in 0..w {
                let c = at(i, j, k);
                let sum = if i > 0 { at(i - 1, j, k) } else { c }
                    + if i + 1 < w { at(i + 1, j, k) } else { c }
                    + if j > 0 { at(i, j - 1, k) } else { c }
                    + if j + 1 < h { at(i, j + 1, k) } else { c }
                    + if k > 0 { at(i, j, k - 1) } else { c }
                    + if k + 1 < d { at(i, j, k + 1) } else { c };
                out.push(f(c, (sum - 6.0 * c) / (dx * dx)));
            }
        }
    }
    out
}

/// One relaxation of the interior cells.
fn relax(u: &mut [f64], rho: &[f64], scale: f64, (w, h, d): (usize, usize, usize)) {
    let inner = |n: usize| if n > 2 { 1..n - 1 } else { 0..n };
    for k in inner(d) {
        for j in inner(h) {
            for i in inner(w) {
                let idx = (k * h + j) * w + i;
                let mut sum = 0.0;
                let mut n = 0.0;
                if w > 2 {
                    sum += u[idx - 1] + u[idx + 1];
                    n += 2.0;
                }
                if h > 2 {
                    sum += u[idx - w] + u[idx + w];
                    n += 2.0;
                }
                if d > 2 {
                    sum += u[idx - w * h] + u[idx + w * h];
                    n += 2.0;
                }
                u[idx] = (sum - scale * rho[idx]) / n;
            }
        }
    }
}

/// One run of a module on a scene. Events that are due come first.
fn run_module(module: &EirModule, scene: &Scene, env: &ExecEnv) -> Result<RunOutcome, Error> {
    let mut env = Env::entering(env);
    let due = |q: &QueuedEvent| f64::from_bits(q.due) < env.time + env.dt;
    let (now, later): (Vec<QueuedEvent>, Vec<QueuedEvent>) = env.queue.iter().partition(|q| due(q));
    env.events.extend(now.iter().map(|q| EmittedEvent { kind: q.kind, payload: q.payload }));
    env.queue = later;
    let mut m = Machine { module, rt: SceneRuntime::new(scene), env, writes: vec![] };
    m.run()?;
    Ok(RunOutcome { writes: m.writes, env: m.env.leaving(), overlays: m.rt.overlay })
}

// ---- runtimes ------------------------------------------------------------------

struct Rt {
    lang: LangRuntime,
    log: Diagnostics,
}

fn rt(lang: LangRuntime) -> Rt {
    Rt { lang, log: Diagnostics::new() }
}

fn boot(compiled: CompiledProgram) -> Rt {
    let scene = compiled.parsed.model.build_scene();
    rt(LangRuntime::from_compiled(compiled, scene))
}

fn try_compile(src: &str) -> Result<Rt, Error> {
    Ok(rt(LangRuntime::compile(&numbers(&[src]), src, &mut Diagnostics::new())?))
}

fn in_region(src: &str, region: RegionId) -> Result<Rt, Error> {
    let log = &mut Diagnostics::new();
    Ok(rt(LangRuntime::compile_in_region(&numbers(&[src]), src, region, log)?))
}

fn started(src: &str) -> Rt {
    try_compile(src).unwrap()
}

fn detail_of(src: &str) -> u32 {
    match try_compile(src) {
        Ok(_) => panic!("expected a failure"),
        Err(e) => e.detail,
    }
}

fn parsed(src: &str) -> Result<ParsedProgram, Fault> {
    parse(src, &numbers(&[src]))
}

impl Rt {
    fn step_cross(&mut self) -> Result<(), Error> {
        let time = f64::from_bits(self.lang.scene.sim_time);
        let dt = f64::from_bits(self.lang.sim_dt);
        let env = self.lang.next_env();
        let a = run_module(&self.lang.module, &self.lang.scene, &env)?;
        let b = run_module(&self.lang.module, &self.lang.scene, &env)?;
        self.lang.finish_cross(a, &b, (time + dt).to_bits(), &mut self.log)?;
        Ok(())
    }

    fn step_cross_n(&mut self, n: u64) -> Result<(), Error> {
        for _ in 0..n {
            self.step_cross()?;
        }
        Ok(())
    }

    fn state(&self, id: u128) -> Vec<f64> {
        let b = self.lang.scene.entities.get(&EntityId(id)).unwrap();
        b.state.as_ref().unwrap().iter().map(|v| f64::from_bits(*v)).collect()
    }

    fn position(&self, id: u128) -> [f64; 3] {
        let t = self.lang.scene.entities.get(&EntityId(id)).unwrap().transform.unwrap();
        [f64::from_bits(t.x), f64::from_bits(t.y), f64::from_bits(t.z)]
    }

    fn velocity(&self, id: u128) -> [f64; 3] {
        let t = self.lang.scene.entities.get(&EntityId(id)).unwrap().velocity.unwrap();
        [f64::from_bits(t.x), f64::from_bits(t.y), f64::from_bits(t.z)]
    }

    fn active(&self) -> Vec<u128> {
        let all = &self.lang.scene.entities.entries;
        all.iter().filter(|e| e.1.active).map(|e| e.0 .0).collect()
    }

    fn cell(&self, field: &str, i: usize, j: usize, k: usize) -> f64 {
        let g = self.lang.scene.fields.get(field).unwrap();
        f64::from_bits(g.cells[(k * g.height + j) * g.width + i])
    }

    fn set_cell(&mut self, field: &str, i: usize, j: usize, v: f64) {
        let at = self.lang.scene.fields.find(field).unwrap();
        let g = &mut self.lang.scene.fields.entries[at].1;
        let idx = j * g.width + i;
        g.cells[idx] = v.to_bits();
    }

    fn total(&self, field: &str) -> f64 {
        let g = self.lang.scene.fields.get(field).unwrap();
        g.cells.iter().map(|c| f64::from_bits(*c)).sum()
    }
}

// ---- files -----------------------------------------------------------------------

/// Files in memory.
struct Files {
    all: Vec<(String, String)>,
}

impl Files {
    fn new() -> Files {
        Files { all: vec![] }
    }

    fn add(&mut self, path: &str, text: &str) {
        self.all.push((path.to_string(), text.to_string()));
    }

    /// The file that an import means: a package, a path with its extension, or a
    /// module.
    fn resolve(&self, dir: &str, spec: &str) -> String {
        let joined = if dir.is_empty() { spec.to_string() } else { format!("{dir}/{spec}") };
        let inside = format!("{joined}/");
        if self.all.iter().any(|f| f.0.starts_with(&inside)) {
            format!("{joined}/__init__.pwe")
        } else if joined.ends_with(".pwe") {
            joined
        } else {
            format!("{joined}.pwe")
        }
    }

    fn load(&self, path: &str) -> Result<(ParsedProgram, ProgramSources), Fault> {
        let texts: Vec<&str> = self.all.iter().map(|f| f.1.as_str()).collect();
        let table = numbers(&texts);
        let mut loader = Loader::start(path);
        loop {
            let found = match loader.next() {
                None => return loader.finish(),
                Some(q) => self.resolve(&q.dir, &q.path),
            };
            let text = match self.all.iter().rev().find(|f| f.0 == found) {
                Some(f) => f.1.clone(),
                None => return Err(cannot_import(&found, "no such file")),
            };
            if loader.reach(&found) {
                continue;
            }
            let dir = match found.rfind('/') {
                Some(at) => found[..at].to_string(),
                None => String::new(),
            };
            if let Some(f) = loader.supply(&table, &found, &found, &dir, &text) {
                return Err(f);
            }
        }
    }

    fn compile_file(&self, path: &str) -> Result<Rt, Error> {
        let texts: Vec<&str> = self.all.iter().map(|f| f.1.as_str()).collect();
        let mut log = Diagnostics::new();
        let (program, _) = self.load(path).map_err(|f| f.error)?;
        Ok(boot(compile_program(&numbers(&texts), program, &mut log)?))
    }
}

/// Whether every function ends, and nothing follows but further ends.
fn well_ended(m: &EirModule) -> bool {
    m.functions.iter().all(|f| match f.instructions.last() {
        Some(i) => i.opcode == Opcode::Return,
        None => false,
    })
}

/// Whether every register is set once, and before it is used.
fn dominates(m: &EirModule) -> bool {
    m.functions.iter().all(|f| {
        let mut seen: Vec<u32> = (1..=f.argument_count).collect();
        f.instructions.iter().all(|i| {
            let uses: &[u32] = match i.opcode {
                Opcode::Call => &i.operands[1..],
                Opcode::CondBr => &i.operands[..1],
                _ => &i.operands[..],
            };
            let defined = uses.iter().all(|r| seen.contains(r));
            let fresh = i.result_id == 0 || !seen.contains(&i.result_id);
            seen.push(i.result_id);
            defined && fresh
        })
    })
}

/// Regression: a `#` comment inside an `update` block must not swallow the
/// preceding scalar parameter's value (`dt = 0.0005\n # note`).
#[test]
fn comment_in_update_does_not_swallow_scalar_param() {
    let src = "world { gravity=(0,0,0) entity reactor { state=(0,0,0,na=2.0,water=100.0,naoh=0.0,temp=300.0,h2=0.0); color=0xffb347 } }\n systems { update { on = reactor; dt = 0.0005\n # kinetics\n let k = 3.0 * exp(-900.0 / temp)\n na = -k * na * water\n temp = 260.0 * k * na * water\n } }";
    let mut rt = started(src);
    rt.step_cross_n(10).unwrap();
    let st = rt.state(1);
    assert!(st[3] < 2.0, "Na should be consumed: {st:?}");
    assert!(st[6] > 300.0, "temperature should rise: {st:?}");
}

/// Diagnostics: a missing required system param reports which system and
/// key, with a source caret via `render_diagnostic`.
#[test]
fn missing_param_yields_diagnostic_with_location() {
    let mut log = Diagnostics::new();
    clear_diagnostics(&mut log);
    let src = "world { gravity=(0,0,0) entity b { state=(0,0,0) } }\n systems { gravity { } }";
    let err = match compile(&numbers(&[src]), src, &mut log) {
        Ok(_) => panic!("expected compile failure"),
        Err(e) => e,
    };
    let text = diagnose(&mut log, src, &err);
    assert!(err.detail == 48, "expected missing-param error, got {text}");
    assert!(
        text.contains("gravity"),
        "diagnostic should name the system: {text}"
    );
    assert!(
        text.contains("gravity_y"),
        "diagnostic should name the param: {text}"
    );
    // `diagnose` rendered a source location (line/caret) from byte_offset.
    assert!(
        text.contains("line") && text.contains('^'),
        "diagnostic should carry a rendered source caret: {text}"
    );
}

const SOURCE: &str = r#"
    world {
        gravity = (0, -9.81, 0)
        entity vehicle {
            position = (0, 8, 0)
            velocity = (4, 0, 0)
            mass = 4
            dynamic = true
            box = (1, 0.5, 0.7)
        }
        entity ground {
            position = (0, -5, 0)
            dynamic = false
            box = (50, 5, 50)
        }
        entity camera {
            position = (0, 16, 24)
            camera = true
        }
    }
    systems {
        gravity { gravity_y = -9.81; dt = 1 / 60 }
        integrate { dt = 1 / 60 }
        ground_contact { restitution = 0.6 }
    }
"#;

#[test]
fn parse_builds_world_and_systems() {
    let parsed = parsed(SOURCE).unwrap();
    assert_eq!(parsed.model.entities.len(), 3);
    assert_eq!(parsed.systems.len(), 3);
    assert_eq!(parsed.systems[0].kind, "gravity");
    let dt = f64::from_bits(*parsed.systems[0].params.get("dt").unwrap());
    assert!((dt - 1.0 / 60.0).abs() < 1e-9);
    // Camera and ground declarations survive.
    assert_eq!(parsed.model.entities[2].name, "camera");
    assert_eq!(parsed.model.entities[2].camera, Some(true));
}

#[test]
fn compiles_to_low_level_eir_that_validates() {
    let compiled = compile(&numbers(&[SOURCE]), SOURCE, &mut Diagnostics::new()).unwrap();
    assert!(!compiled.eir.functions.is_empty());
    assert!(well_ended(&compiled.eir));
}

#[test]
fn interpreter_and_jit_agree_cross_backend() {
    let mut rt = started(SOURCE);
    // Dynamic bodies only (ground is static, camera is not a body).
    assert_eq!(rt.lang.program.entities, vec![1]);
    rt.step_cross_n(120).unwrap();
    let y = rt.position(1)[1];
    // Vehicle settled onto the ground, never below it.
    assert!(y < 8.0, "vehicle fell to {y}");
    assert!(y >= -5.0, "vehicle should not tunnel, got {y}");
}

#[test]
fn cross_step_requires_backend_agreement_each_step() {
    let mut rt = started(SOURCE);
    for _ in 0..50 {
        rt.step_cross().unwrap();
    }
    // The interpreter and JIT advanced the same authoritative world.
    assert!(rt.lang.clock == 50);
}

#[test]
fn rejects_malformed_source() {
    assert!(parsed("world { gravity = (0, -9.81) }").is_err());
    assert!(parsed("systems {").is_err());
}

#[test]
fn compiled_program_passes_linear_dominance_gate() {
    let compiled = compile(&numbers(&[SOURCE]), SOURCE, &mut Diagnostics::new()).unwrap();
    // Every register is set once, before it is used.
    assert!(dominates(&compiled.eir));
}

#[test]
fn force_system_drifts_body_in_x() {
    // A wind/force in +x accelerates the vehicle's horizontal velocity.
    let src = r#"
        world {
            gravity = (0, 0, 0)
            entity body { position = (0, 0, 0); velocity = (0, 0, 0); mass = 1; dynamic = true; box = (1, 1, 1) }
        }
        systems {
            force { ax = 2; ay = 0; az = 0; dt = 1 / 60 }
            integrate { dt = 1 / 60 }
        }
    "#;
    let mut rt = started(src);
    rt.step_cross_n(60).unwrap(); // 1 second
    let vx = rt.velocity(1)[0];
    let px = rt.position(1)[0];
    assert!((vx - 2.0).abs() < 1e-6, "vx = {vx}");
    assert!(px > 0.5, "body should drift in +x, px = {px}");
}

#[test]
fn damping_reduces_horizontal_velocity() {
    // Damping scales every velocity axis toward zero.
    let src = r#"
        world {
            gravity = (0, 0, 0)
            entity body { position = (0, 0, 0); velocity = (10, 5, 0); mass = 1; dynamic = true; box = (1, 1, 1) }
        }
        systems {
            damping { factor = 0.5 }
        }
    "#;
    let mut rt = started(src);
    rt.step_cross_n(3).unwrap();
    let v = rt.velocity(1);
    // After 3 halvings: 10 -> 1.25, 5 -> 0.625.
    assert!((v[0] - 1.25).abs() < 1e-6, "vx = {}", v[0]);
    assert!((v[1] - 0.625).abs() < 1e-6, "vy = {}", v[1]);
}

#[test]
fn state_linear_system_models_radioactive_decay() {
    // N' = -λ N  with λ = 0.1 / step. After n steps, N = N0·(1−λ)^n.
    let src = r#"
        world {
            gravity = (0, 0, 0)
            entity isotope { state = (100, 0) }
        }
        systems {
            linear { slots = 2; dt = 1
                row0 = (-0.1, 0, 0)
                row1 = (0, 0, 0) }
        }
    "#;
    let mut rt = started(src);
    rt.step_cross_n(20).unwrap();
    let st = rt.state(1);
    let expected = 100.0 * (1.0f64 - 0.1).powi(20);
    assert!(
        (st[0] - expected).abs() < 1e-6,
        "N = {}",
        st[0]
    );
}

#[test]
fn state_linear_system_models_harmonic_oscillator() {
    // Spring: x' = v, v' = -ω²x with ω² = 10. Energy stays bounded.
    let src = r#"
        world {
            gravity = (0, 0, 0)
            entity spring { state = (1, 0) }
        }
        systems {
            linear { slots = 2; dt = 0.001
                row0 = (0, 1, 0)
                row1 = (-10, 0, 0) }
        }
    "#;
    let mut rt = started(src);
    rt.step_cross_n(1000).unwrap();
    let st = rt.state(1);
    let (x, v) = (st[0], st[1]);
    // E = ½v² + ½ω²x²; the exact solution conserves it, explicit Euler stays
    // within a small band.
    let energy = 0.5 * v * v + 0.5 * 10.0 * x * x;
    assert!((energy - 5.0).abs() < 0.1, "energy drifted: {energy}");
}

#[test]
fn parses_convex_hull_collider() {
    let src = r#"
        world {
            gravity = (0, -9.81, 0)
            entity hull {
                position = (0, 2, 0); dynamic = true
                hull = [ (0,0,0), (2,0,0), (0,0,2), (2,0,2), (1,2,1) ]
            }
        }
        systems {}
    "#;
    let program = parsed(src).unwrap();
    let e = &program.model.entities[0];
    match &e.collider {
        Some(ColliderDecl::ConvexHull { points }) => {
            assert_eq!(points.len(), 5);
            assert_eq!(*points.first().unwrap(), triple(0.0, 0.0, 0.0));
        }
        _ => panic!("expected ConvexHull collider"),
    }
    // Too few points is rejected.
    assert!(parsed(
        "world { gravity = (0,0,0) entity h { hull = [ (0,0,0), (1,0,0), (0,1,0) ] } } systems {}"
    )
    .is_err());
}

#[test]
fn update_system_models_logistic_growth() {
    // N' = r·N·(1−N), r=1, N0=0.5, dt=0.01. Analytic N(t)=1/(1+e^(−t)).
    let src = r#"
        world { gravity = (0,0,0) entity pop { state = (0.5, 0) } }
        systems {
            update { dt = 0.01
                s0 = 1 * s0 * (1 - s0) }
        }
    "#;
    let mut rt = started(src);
    rt.step_cross_n(100).unwrap(); // t = 1.0
    let n = rt.state(1)[0];
    let analytic = 1.0 / (1.0 + (-1.0f64).exp());
    assert!(
        (n - analytic).abs() < 0.02,
        "logistic N={n}, analytic {analytic}"
    );
    // Keep stepping: it must converge to (and never exceed) capacity 1.
    for _ in 0..2000 {
        rt.step_cross().unwrap();
    }
    let n2 = rt.state(1)[0];
    assert!((n2 - 1.0).abs() < 1e-3, "capacity N={n2}");
}

#[test]
fn update_system_models_coupled_nonlinear_system() {
    // Two coupled nonlinear slots: A' = a·A − b·A·B, B' = c·A·B (a simple
    // resource–consumer model). Both remain bounded and the product coupling
    // executes across backends identically.
    let src = r#"
        world { gravity = (0,0,0) entity sys { state = (1, 0.5) } }
        systems {
            update { dt = 0.001
                s0 = 2 * s0 - 1 * s0 * s1
                s1 = 1 * s0 * s1 - 1 * s1 }
        }
    "#;
    let mut rt = started(src);
    rt.step_cross_n(500).unwrap();
    let st = rt.state(1);
    // Values stay finite and positive.
    assert!(st[0].is_finite() && st[0] > 0.0);
    assert!(st[1].is_finite() && st[1] > 0.0);
    // Cross-backend agreement is enforced on every step by step_cross.
    assert!(rt.lang.clock == 500);
}

#[test]
fn update_system_supports_transcendental_functions() {
    // exp() lowers and evaluates to e; sin()/cos() work in expressions.
    let src = r#"
        world { gravity = (0,0,0) entity a { state = (0, 0, 0) } }
        systems { update { dt = 1
            s0 = exp(1) - 2.718281828459045   # exp(1) = e ≈ 0 drift
            s1 = sin(0)                        # 0
            s2 = cos(0) - 1                    # 0
        } }
    "#;
    let mut rt = started(src);
    rt.step_cross_n(1).unwrap();
    let st = rt.state(1);
    assert!(st[0].abs() < 1e-6, "s0 = {}", st[0]);
    assert!(st[1].abs() < 1e-6, "s1 = {}", st[1]);
    assert!(st[2].abs() < 1e-6, "s2 = {}", st[2]);
}

#[test]
fn nbody_system_models_circular_orbit() -> Result<(), Error> {
    // Two-body gravity with a near-fixed massive sun: a small body orbits at
    // radius r with circular speed v = sqrt(G·M/r).
    let src = r#"
        world { gravity = (0,0,0)
            entity sun   { state = (0, 0, 0, 0, 0, 0, 1000000) }
            entity planet{ state = (4, 0, 0, 0, 500, 0, 1) }   # v = sqrt(1·1e6/4) = 500
        }
        systems { nbody { G = 1.0; dt = 0.0001 } }
    "#;
    let mut rt = try_compile(src)?;
    for _ in 0..10000 {
        rt.step_cross()?;
    }
    let p = rt.state(2);
    let (px, py) = (p[0], p[1]);
    let r = (px * px + py * py).sqrt();
    // The planet holds a ~circular orbit at r ≈ 4 (doesn't collapse or escape).
    assert!((r - 4.0).abs() < 0.5, "orbit radius {r}");
    Ok(())
}

#[test]
fn nbody_system_models_micro_particle_repulsion() -> Result<(), Error> {
    // Two like-charged particles at rest repel (G < 0): the gap grows and
    // linear momentum is conserved (equal/opposite for equal masses).
    let src = r#"
        world { gravity = (0,0,0)
            entity a { state = (-2, 0, 0,  0, 0, 0, 1) }
            entity b { state = ( 2, 0, 0,  0, 0, 0, 1) }
        }
        systems { nbody { G = -1.0; dt = 0.001 } }
    "#;
    let mut rt = try_compile(src)?;
    for _ in 0..2000 {
        rt.step_cross()?;
    }
    let a = rt.state(1);
    let b = rt.state(2);
    // Repulsion pushes a left and b right.
    assert!(a[0] < -2.0, "a.x = {}", a[0]);
    assert!(b[0] > 2.0, "b.x = {}", b[0]);
    // Linear momentum is conserved: m_a·v_a + m_b·v_b ≈ initial 0.
    let mom = a[3] + b[3];
    assert!(mom.abs() < 0.1, "momentum = {mom}");
    Ok(())
}

#[test]
fn chan_system_sends_and_receives_across_entities() {
    // A producer entity publishes its slot-0 value to channel `wire`, then a
    // consumer receives it into its slot 1. Both are plain cross-entity EIR
    // reads/writes, so the interpreter and JIT agree byte-for-byte.
    let src = r#"
        world { gravity = (0,0,0)
            chan wire { value = 0 }
            entity probe { state = (3, 0) }
        }
        systems {
            send { chan = wire; value = s0 }
            recv { chan = wire; slot = 1 }
        }
    "#;
    let mut rt = started(src);
    rt.step_cross_n(1).unwrap();
    let probe = rt.state(1);
    // The producer's value (3) travelled through the channel into slot 1.
    assert!(
        (probe[1] - 3.0).abs() < 1e-9,
        "slot1 = {}",
        probe[1]
    );
    // The channel entity (id 2) holds the latest published value.
    let wire = rt.state(2);
    assert!(
        (wire[0] - 3.0).abs() < 1e-9,
        "wire = {}",
        wire[0]
    );
    // And the producer's own slot 0 is unchanged.
    assert!((probe[0] - 3.0).abs() < 1e-9);
}

#[test]
fn chan_system_round_trips_cross_backend() {
    // Two producers publishing to one channel: last sender wins.
    let src = r#"
        world { gravity = (0,0,0)
            chan wire { value = 0 }
            entity a { state = (1, 0) }
            entity b { state = (7, 0) }
        }
        systems { send { chan = wire; value = s0 } }
    "#;
    let mut rt = started(src);
    rt.step_cross_n(1).unwrap();
    // b (id 2) is processed after a (id 1), so the channel holds b's value.
    let wire = rt.state(3);
    assert!(
        (wire[0] - 7.0).abs() < 1e-9,
        "wire = {}",
        wire[0]
    );
}

#[test]
fn chan_system_communicates_across_runtimes() -> Result<(), Error> {
    // Runtime A publishes to `wire`; Runtime B receives it over the wire
    // transport (cross-runtime / cross-network world communication).
    let src_a = r#"
        world { gravity = (0,0,0)
            chan wire { value = 0 }
            entity producer { state = (42, 0) }
        }
        systems { send { chan = wire; value = s0 } }
    "#;
    let src_b = r#"
        world { gravity = (0,0,0)
            chan wire { value = 0 }
            entity consumer { state = (0, 0) }
        }
        systems { recv { chan = wire; slot = 1 } }
    "#;
    let mut a = in_region(src_a, RegionId(1))?;
    let mut b = in_region(src_b, RegionId(2))?;
    a.lang.set_peer(RegionId(2));
    b.lang.set_peer(RegionId(1));

    // A publishes 42 to wire; transport to B; B receives it into slot 1.
    a.step_cross()?;
    a.lang.exchange(&mut b.lang);
    b.step_cross()?;

    let consumer = b.state(1);
    assert!(
        (consumer[1] - 42.0).abs() < 1e-9,
        "consumer slot1 = {}",
        consumer[1]
    );
    Ok(())
}

const SENDER: &str = "world { gravity = (0, 0, 0)
    chan wire { value = 5 }
    entity producer { state = (42, 0) } }
    systems { send { chan = wire; value = s0 } }";

fn message(region: u64, channel: u128, bytes: Vec<u8>) -> ChannelMessage {
    ChannelMessage { region: RegionId(region), channel, bytes }
}

#[test]
fn only_a_finished_step_publishes() {
    let mut a = in_region(SENDER, RegionId(1)).unwrap();
    a.lang.set_peer(RegionId(2));
    assert!(a.lang.outgoing().is_empty());
    a.step_cross().unwrap();
    let sent = a.lang.outgoing();
    assert_eq!(sent.len(), 1);
    assert_eq!(sent[0].region, RegionId(2));
    assert_eq!(sent[0].channel, 2);
    assert_eq!(sent[0].bytes, 42.0f64.to_bits().to_le_bytes().to_vec());
    // What went out stays what it was until the next step, whatever arrives meanwhile.
    a.lang.deliver(&message(1, 2, 7.0f64.to_bits().to_le_bytes().to_vec()));
    assert_eq!(a.state(2)[0], 7.0);
    assert_eq!(a.lang.outgoing()[0].bytes, 42.0f64.to_bits().to_le_bytes().to_vec());
}

#[test]
fn without_a_peer_nothing_is_published() {
    let mut a = in_region(SENDER, RegionId(1)).unwrap();
    a.step_cross().unwrap();
    assert!(a.lang.outgoing().is_empty());
    a.lang.set_peer(RegionId(2));
    assert!(a.lang.outgoing().is_empty());
}

#[test]
fn a_message_reaches_only_a_channel_of_its_region() {
    let seven = 7.0f64.to_bits().to_le_bytes().to_vec();
    let mut a = in_region(SENDER, RegionId(1)).unwrap();
    // Another region, an entity that is no channel, and too few bytes.
    a.lang.deliver(&message(2, 2, seven.clone()));
    a.lang.deliver(&message(1, 1, seven.clone()));
    a.lang.deliver(&message(1, 9, seven.clone()));
    a.lang.deliver(&message(1, 2, vec![1, 2, 3]));
    assert_eq!(a.state(1)[..2], [42.0, 0.0]);
    assert_eq!(a.state(2)[0], 5.0);
    // The last of several messages stays.
    let nine = 9.0f64.to_bits().to_le_bytes().to_vec();
    a.lang.ingest(&vec![message(1, 2, seven), message(1, 2, nine)]);
    assert_eq!(a.state(2)[0], 9.0);
    assert_eq!(a.state(1)[..2], [42.0, 0.0]);
}

#[test]
fn an_exchange_goes_both_ways() {
    let other = SENDER.replace("(42, 0)", "(43, 0)");
    let mut a = in_region(SENDER, RegionId(1)).unwrap();
    let mut b = in_region(&other, RegionId(2)).unwrap();
    a.lang.set_peer(RegionId(2));
    b.lang.set_peer(RegionId(1));
    a.step_cross().unwrap();
    b.step_cross().unwrap();
    a.lang.exchange(&mut b.lang);
    assert_eq!(a.state(2)[0], 43.0);
    assert_eq!(b.state(2)[0], 42.0);
    // A message for a third region is taken by neither.
    a.lang.set_peer(RegionId(3));
    a.step_cross().unwrap();
    a.lang.exchange(&mut b.lang);
    assert_eq!(b.state(2)[0], 42.0);
}

#[test]
fn loading_a_world_replaces_the_scene() {
    let mut vm = PweRuntime::boot(Scene::new(triple(0.0, 1.0, 0.0)));
    let model = parsed(VEHICLE).unwrap().model;
    let id = Hash256([1; 32]);
    let loaded = vm.load_with_world(compile_module("m", model, vehicle_program(), id));
    assert!(loaded.same(&id));
    assert_eq!(height(&vm.scene, 1), 8.0);
    assert_eq!(f64::from_bits(vm.scene.gravity.y), -9.81);
    // Loading alone leaves the scene as it is.
    let bare = parsed("world { gravity = (0.0, 0.0, 0.0) }").unwrap().model;
    vm.load(compile_module("n", bare, vehicle_program(), Hash256([2; 32])));
    assert_eq!(height(&vm.scene, 1), 8.0);
}

#[test]
fn update_system_supports_cross_entity_coupling() {
    // A dynamic earth body is attracted to a fixed massive `sun` at the
    // origin via `@sun.s0` (inverse-square gravity, A = 1). The sun is
    // declared `dynamic = false` (not updated), so only earth's state moves.
    let src = r#"
        world { gravity = (0,0,0)
            entity sun { dynamic = false; state = (0, 0) }   # fixed at x = 0
            entity earth { state = (5, 0) }                  # x = 5, vx = 0
        }
        systems { update { dt = 0.001
            s0 = s1                                                      # x' = vx
            s1 = -1 * (s0 - @sun.s0) / ((s0 - @sun.s0)*(s0 - @sun.s0)*sqrt((s0 - @sun.s0)*(s0 - @sun.s0)))
        } }
    "#;
    let mut rt = started(src);
    rt.step_cross_n(3000).unwrap();
    let earth_x = rt.state(2)[0];
    let sun_x = rt.state(1)[0];
    // Earth falls toward the fixed sun at the origin.
    assert!((sun_x - 0.0).abs() < 1e-9, "sun fixed at 0, got {sun_x}");
    assert!(earth_x < 5.0, "earth fell toward sun, x = {earth_x}");
    assert!(earth_x.is_finite());
    assert!(
        earth_x > -5.0,
        "earth did not fly past the sun, x = {earth_x}"
    );
}

#[test]
fn update_system_supports_time_t() {
    // Driven oscillator (Newton):  x' = v,  v' = -ω²x + F·sin(ω_d·t).
    // Off-resonance (ω²=1, ω_d=0.37) the response is bounded.
    let src = r#"
        world { gravity = (0,0,0) entity osc { state = (0, 0) } }
        systems { update { dt = 0.001
            s0 = s1
            s1 = -1 * s0 + 0.6 * sin(0.37 * t) }
        }
    "#;
    let mut rt = started(src);
    rt.step_cross_n(4000).unwrap(); // 4 seconds
    let st = rt.state(1);
    // The clock advanced with the update dt.
    assert!(
        (f64::from_bits(rt.lang.scene.sim_time) - 4.0).abs() < 1e-6,
        "t = {}",
        f64::from_bits(rt.lang.scene.sim_time)
    );
    // The oscillator is driven but bounded (forced-response amplitude < F/(ω²−ω_d²)).
    assert!(st[0].abs() < 1.0, "x = {}", st[0]);
    assert!(st[1].abs() < 1.0, "v = {}", st[1]);
}

#[test]
fn parses_entity_color() {
    let src = r#"
        world { gravity = (0,0,0)
            entity red { position = (0,1,0); color = 0xFF0000; box = (1,1,1) }
        }
        systems {}
    "#;
    let program = parsed(src).unwrap();
    assert_eq!(program.model.entities[0].color, Some(0xFF0000));
}

#[test]
fn update_system_supports_unary_minus() {
    // -x lowers to x·(-1); a negative growth rate.
    let src = r#"
        world { gravity = (0,0,0) entity a { state = (10, 0) } }
        systems { update { dt = 1
            s0 = -0.1 * s0 } }
    "#;
    let mut rt = started(src);
    rt.step_cross_n(10).unwrap();
    let st = rt.state(1);
    let expected = 10.0 * (0.9f64).powi(10);
    assert!(
        (st[0] - expected).abs() < 1e-6,
        "s0 = {}",
        st[0]
    );
}

#[test]
fn update_system_supports_comparisons_and_select() {
    // `update` integrates: state[i] += dt·expr. Use `if` as a saturating
    // integrator (grows to 10 then holds), and `min`/`max` as bounded terms.
    let src = r#"
        world { gravity = (0,0,0) entity c { state = (0, 0, 0) } }
        systems { update { dt = 1
            s0 = if(s0 < 10, 1, 0)      # s0 += 1 while < 10  -> saturates at 10
            s1 = min(0.5, 10 - s0)      # bounded increment
            s2 = max(-1, s0 - 10)       # 0 once s0 = 10
        } }
    "#;
    let mut rt = started(src);
    rt.step_cross_n(20).unwrap();
    let st = rt.state(1);
    // The `if` integrator saturates exactly at 10.
    assert!((st[0] - 10.0).abs() < 1e-9, "s0 = {}", st[0]);
    // `max` bounds s2 to -1/step; with simultaneous update it accumulates
    // -1 for the 10 steps before s0 crossed 10 -> -10, then stops at 0.
    assert!((st[2] + 10.0).abs() < 1e-9, "s2 = {}", st[2]);
    // `min` keeps s1 bounded and finite.
    assert!(st[1].is_finite());
}

#[test]
fn update_system_models_pendulum_with_sin() {
    // Nonlinear pendulum: θ'' = −(g/L)·sin(θ) via slots [θ, ω], L=1.
    let src = r#"
        world { gravity = (0,0,0) entity pend { state = (0.5, 0) } }
        systems { update { dt = 0.001
            s0 = s1                       # θ' = ω
            s1 = -9.81 * sin(s0)          # ω' = −(g/L)·sin(θ)
        } }
    "#;
    let mut rt = started(src);
    rt.step_cross_n(2000).unwrap(); // 2 seconds
    let st = rt.state(1);
    let (theta, omega) = (st[0], st[1]);
    assert!(theta.is_finite() && theta.abs() < 0.6, "θ = {theta}");
    // Energy E = ½ω² + g(1−cosθ) is conserved.
    let e = 0.5 * omega * omega + 9.81 * (1.0 - theta.cos());
    let initial = 9.81 * (1.0 - 0.5f64.cos());
    assert!(
        (e - initial).abs() < 0.1,
        "pendulum energy {e} vs {initial}"
    );
}

#[test]
fn random_and_emit_work_cross_backend_and_are_reproducible() {
    // A stochastic rule: each step, s0 += random(); and emit an event with
    // the current slot. Cross-backend must agree, and replaying from a fresh
    // runtime must reproduce the same trajectory (seeded RNG).
    let src = r#"
        world { gravity = (0,0,0) entity walker { state = (0, 0) } }
        systems { update { dt = 1
            s0 = s0 + random()          # stochastic walk
            s1 = emit(7, s0)            # emit an ordered event each step
        } }
    "#;
    let mut rt = started(src);
    rt.step_cross_n(5).unwrap(); // exercises interpreter == JIT on random/emit
    let walker = rt.state(1);
    let final_state = walker[0];
    assert!(final_state.is_finite() && final_state > 0.0);

    // Reproducibility: a fresh runtime with the same source yields the same
    // trajectory (the RNG is deterministically seeded).
    let mut rt2 = started(src);
    rt2.step_cross_n(5).unwrap();
    let walker2 = rt2.state(1);
    assert_eq!(walker2[0], final_state);
}

#[test]
fn user_defined_functions_lower_to_calls_and_run_cross_backend() {
    // Pure `funcs` (clamp + grow) called from an `update` rule via `CALL`.
    // The update system integrates s0 += dt·rule, so clamp caps the per-step
    // delta — the point here is that the functions are actually invoked by
    // both backends and the trajectory is reproducible.
    let src = r#"
        world { gravity = (0,0,0) entity x { state = (0.5, 0) } }
        funcs {
            # param `a` is slot s0, `b` is slot s1.
            clamp(a, b) { if(s0 < 0, 0, if(s0 > s1, s1, s0)) }
            grow(v)   { s0 * (1 - s0) }
        }
        systems { update { dt = 0.01
            s0 = clamp(grow(s0) + s0, 0.9)
            s1 = s0 * 2
        } }
    "#;
    let mut rt = started(src);
    rt.step_cross_n(500).unwrap(); // interpreter == JIT on CALLs
    let read = |rt: &Rt| -> (f64, f64) {
        let st = rt.state(1);
        (st[0], st[1])
    };
    let (s0, _s1) = read(&rt);
    // The CALLs had an effect: the population moved off its initial value
    // and stayed finite/positive.
    assert!(s0.is_finite() && s0 > 0.0, "s0 = {s0}");
    // Reproducibility: a fresh runtime reproduces the same trajectory.
    let mut rt2 = started(src);
    rt2.step_cross_n(500).unwrap();
    assert_eq!(read(&rt2).0, s0);
}

#[test]
fn named_state_slots_and_rich_builtins_work_cross_backend() {
    // Named state slots (`state = (x = 0, y = 0)`) accessed by name in rules
    // and via `@self.x`; rich builtins (abs, floor, sign, hypot, atan2, …).
    let src = r#"
        world { gravity = (0,0,0) entity bob { state = (x = 0.5, y = 0.1) } }
        systems { update { dt = 0.01
            x = abs(sign(@self.x)) + floor(@self.x)   # = 1 + 0 = 1
            y = hypot(3, 4) + @self.x                  # = 5 + x
        } }
    "#;
    let mut rt = started(src);
    rt.step_cross_n(2).unwrap(); // interpreter == JIT
    let read = |rt: &Rt| -> (f64, f64) {
        let st = rt.state(1);
        (st[0], st[1])
    };
    let (x, y) = read(&rt);
    // x: starts 0.5, each step x += 0.01*(1 + 0) => 0.52. y integrates
    // dt*(hypot(3,4) + x): 0.1 + 0.01*((5+0.5) + (5+0.51)) = 0.2101.
    assert!((x - 0.52).abs() < 1e-9, "x = {x}");
    assert!((y - 0.2101).abs() < 1e-9, "y = {y}");
    // Reproducible.
    let mut rt2 = started(src);
    rt2.step_cross_n(2).unwrap();
    assert_eq!(read(&rt2), (x, y));
}

#[test]
fn cross_entity_property_access_reads_physics_fields() {
    // `@other.mass`, `@other.position.x`, `@other.velocity.y` read the
    // corresponding physics components of another entity.
    let src = r#"
        world { gravity = (0,0,0)
            entity heavy { position = (3, 4, 0); velocity = (1, 2, 0); mass = 9 }
            entity probe { state = (0, 0) }
        }
        systems { update { dt = 0.01
            s0 = @heavy.mass                       # 9
            s1 = @heavy.position.x + @heavy.velocity.y   # 3 + 2 = 5
        } }
    "#;
    let mut rt = started(src);
    rt.step_cross_n(3).unwrap();
    let st = rt.state(2);
    // s0 accumulates 9 per step (dt*9*3 = 0.27), s1 accumulates 5.
    let (s0, s1) = (st[0], st[1]);
    assert!((s0 - 3.0 * 0.01 * 9.0).abs() < 1e-9, "s0 = {s0}");
    assert!((s1 - 3.0 * 0.01 * 5.0).abs() < 1e-9, "s1 = {s1}");
}

#[test]
fn let_locals_enable_elegant_multi_step_rules() {
    // `let` locals compute intermediates once, reused by several rules —
    // the same model without inlining. Cross-backend + reproducible.
    let src = r#"
        world { gravity = (0,0,0)
            entity target { state = (tx = 3, ty = 4, 0) }
            entity g { state = (x = 0, y = 0, 0) }
        }
        systems { update { on = g; dt = 0.02
            let dx = @target.tx - @self.x
            let dy = @target.ty - @self.y
            let dist = hypot(dx, dy)
            let gain = min(dist * 0.1, 1.0)
            x = dx * gain
            y = dy * gain
            s2 = dist
        } }
    "#;
    let mut rt = started(src);
    rt.step_cross_n(50).unwrap();
    let read = |rt: &Rt| -> (f64, f64, f64) {
        let st = rt.state(2);
        (st[0], st[1], st[2])
    };
    let (x, y, dist) = read(&rt);
    // The glider moves toward the target (both coordinates grow from 0), and
    // `dist` (s2) is finite/positive (the current gap).
    assert!(x.is_finite() && x > 0.0 && y > 0.0, "x={x} y={y}");
    assert!(dist.is_finite() && dist > 0.0, "dist={dist}");
    // Reproducible.
    let mut rt2 = started(src);
    rt2.step_cross_n(50).unwrap();
    assert_eq!(read(&rt2), (x, y, dist));
}

#[test]
fn print_logs_values_for_debugging() {
    // `print(x)` is a transparent debug channel: it logs x and yields x, so
    // it never changes world state (deterministic).
    let src = r#"
        world { gravity = (0,0,0) entity e { state = (1, 0) } }
        systems { update { dt = 0.01
            s0 = print(s0 + 1)
            s1 = s0 * 2
        } }
    "#;
    let mut rt = started(src);
    rt.step_cross_n(3).unwrap();
    // Each step logs the value of (s0+1): 3 logs after 3 steps.
    assert_eq!(rt.lang.logs().len(), 3, "one print per step");
    // `print` is transparent: s0 grew by dt*(s0+1) each step (finite, > initial).
    let st = rt.state(1);
    assert!(
        st[0].is_finite() && st[0] > 1.0,
        "s0 = {}",
        st[0]
    );
}

/// Logical operators (`and` / `or` / `not`) yield 1.0 / 0.0 and combine
/// comparisons for compound branch conditions.
#[test]
fn logical_operators_drive_branching() {
    let src = r#"
        world { gravity = (0,0,0) entity a { state = (s0=0.5, 0,0,0,0,0,1.0,0) } }
        systems { update { on = a; dt = 1.0
            let warm = s0 > 0.0
            s1 = warm and (s0 < 1.0)
            s2 = (s0 > 2.0) or (s0 > 0.1)
            s3 = not (s0 > 0.0)
        } }
    "#;
    let mut rt = started(src);
    rt.step_cross_n(1).unwrap();
    let st = rt.state(1);
    assert_eq!((st[1], st[2], st[3]), (1.0, 1.0, 0.0));
}

/// A `let` bound to a reserved token (`t`, `pi`, `e`, `sN`) is rejected:
/// the grammar resolves those names before bare idents, so such a binding
/// could never be read back.
#[test]
fn shadowed_let_name_is_rejected() {
    for name in ["t", "pi", "e", "s0"] {
        let src = format!(
            "world {{ gravity=(0,0,0) entity a {{ state=(0,0,0,0,0,0,1,0); color=0x112233 }} }} \
             systems {{ update {{ on = a; dt = 1.0 let {name} = 1.0 s5 = {name} }} }}"
        );
        match try_compile(&src) {
            Ok(_) => panic!("let {name} should be rejected"),
            Err(e) => assert_eq!(e.detail, 67, "let {name}"),
        }
    }
}

/// `repeat n { … }` unrolls: Newton iteration converges to sqrt(2) within
/// one step.
#[test]
fn repeat_loop_iterates_newton_sqrt() {
    let src = r#"
        world { gravity = (0,0,0) entity n { state = (s0=2.0, s1=1.0, 0,0,0,0,1.0,0) } }
        systems { update { on = n; dt = 1.0
            let g = s1
            repeat 8 { let g = (g + s0 / g) * 0.5 }
            s1 = g - s1
        } }
    "#;
    let mut rt = started(src);
    rt.step_cross_n(1).unwrap();
    let st = rt.state(1);
    assert!(
        (st[1] - 2.0_f64.sqrt()).abs() < 1e-9,
        "s1 = {}",
        st[1]
    );
}

/// `for i in lo..hi` binds the index per iteration.
#[test]
fn for_loop_binds_index() {
    let src = r#"
        world { gravity = (0,0,0) entity n { state = (s0=0.0, s1=0.0, 0,0,0,0,1.0,0) } }
        systems { update { on = n; dt = 1.0
            let acc = s1
            for i in 1..6 { let acc = acc + i }
            s1 = acc - s1
        } }
    "#;
    let mut rt = started(src);
    rt.step_cross_n(1).unwrap();
    let st = rt.state(1);
    assert_eq!(st[1], 15.0, "1+2+3+4+5");
}

/// `break if (cond)` stops the loop early; convergence is exact.
#[test]
fn break_exits_loop_early() {
    let src = r#"
        world { gravity = (0,0,0) entity n { state = (s0=2.0, s1=1.0, 0,0,0,0,1.0,0) } }
        systems { update { on = n; dt = 1.0
            let g = s1
            repeat 100 {
                let g = (g + s0 / g) * 0.5
                break if (abs(g * g - s0) < 1e-12)
            }
            s1 = g - s1
        } }
    "#;
    let mut rt = started(src);
    rt.step_cross_n(1).unwrap();
    let st = rt.state(1);
    assert!(
        (st[1] - 2.0_f64.sqrt()).abs() < 1e-9,
        "s1 = {}",
        st[1]
    );
}

/// `repeat n until (cond)` exits after an iteration when cond is true;
/// `repeat n while (cond)` skips an iteration when cond is false.
#[test]
fn until_and_while_gates_exit_early() {
    let until_src = r#"
        world { gravity = (0,0,0) entity n { state = (s0=0.0, s1=100.0, 0,0,0,0,1.0,0) } }
        systems { update { on = n; dt = 1.0
            let v = s1
            repeat 100 until (v < 4.0) { let v = v * 0.5 }
            s1 = v - s1
        } }
    "#;
    let mut rt = started(until_src);
    rt.step_cross_n(1).unwrap();
    let st = rt.state(1);
    assert_eq!(st[1], 3.125, "100/2^5 = 3.125");

    let while_src = r#"
        world { gravity = (0,0,0) entity n { state = (s0=0.0, s1=5.0, 0,0,0,0,1.0,0) } }
        systems { update { on = n; dt = 1.0
            let v = s1
            repeat 100 while (v < 32.0) { let v = v * 2.0 }
            s1 = v - s1
        } }
    "#;
    let mut rt = started(while_src);
    rt.step_cross_n(1).unwrap();
    let st = rt.state(1);
    assert_eq!(st[1], 40.0, "5*2^3 stops at 40 >= 32");
}

/// `continue if (cond)` skips the rest of the iteration only.
#[test]
fn continue_skips_rest_of_iteration() {
    let src = r#"
        world { gravity = (0,0,0) entity n { state = (s0=0.0, s1=0.0, 0,0,0,0,1.0,0) } }
        systems { update { on = n; dt = 1.0
            let a = s1
            repeat 3 {
                let a = a + 1.0
                continue if (a > 2.0)
                let a = a * 2.0
            }
            s1 = a - s1
        } }
    "#;
    let mut rt = started(src);
    rt.step_cross_n(1).unwrap();
    let st = rt.state(1);
    assert_eq!(st[1], 4.0);
}

/// A `break` exits only the innermost loop; the outer loop continues.
#[test]
fn nested_break_exits_inner_loop_only() {
    let src = r#"
        world { gravity = (0,0,0) entity n { state = (s0=0.0, s1=0.0, 0,0,0,0,1.0,0) } }
        systems { update { on = n; dt = 1.0
            let a = s1
            repeat 2 {
                repeat 5 {
                    let a = a + 1.0
                    break if (a > 2.0)
                }
                let a = a + 10.0
            }
            s1 = a - s1
        } }
    "#;
    let mut rt = started(src);
    rt.step_cross_n(1).unwrap();
    let st = rt.state(1);
    assert_eq!(st[1], 24.0);
}

/// `rk4` supports loops too (shared let lowering): compiles and steps.
#[test]
fn rk4_supports_repeat_loop() {
    let src = r#"
        world { gravity = (0,0,0) entity n { state = (s0=2.0, s1=1.0, 0,0,0,0,1.0,0) } }
        systems { rk4 { on = n; dt = 0.01
            let g = s1
            repeat 8 { let g = (g + s0 / g) * 0.5 }
            s1 = s0 - s1 * s1
        } }
    "#;
    let mut rt = started(src);
    rt.step_cross_n(10).unwrap();
    let st = rt.state(1);
    assert!(st[1].is_finite(), "s1 = {}", st[1]);
}

/// Loop validation: bad counts, descending ranges, and stray `break` are
/// rejected with specific diagnostics.
#[test]
fn loop_validation_errors() {
    let base = "world { gravity=(0,0,0) entity a { state=(0,0,0,0,0,0,1,0); color=0x112233 } } systems { update { on = a; dt = 1.0 ";
    let cases: &[(&str, u32)] = &[
        ("repeat 0 { let x = 1.0 } s0 = x } }", 65),
        ("repeat 1001 { let x = 1.0 } s0 = x } }", 65),
        ("break s0 = x } }", 60),
        ("continue s0 = x } }", 60),
        ("for i in 5..3 { let x = i } s0 = x } }", 68),
    ];
    for (body, want) in cases {
        let src = format!("{base}{body}");
        match try_compile(&src) {
            Ok(_) => panic!("should reject: {body}"),
            Err(e) => assert_eq!(e.detail, *want, "{body}"),
        }
    }
}

/// Scientific notation literals (`1e-12`) parse as single numbers.
#[test]
fn scientific_notation_parses() {
    let src = r#"
        world { gravity = (0,0,0) entity n { state = (s0=1e-3, s1=0.0, 0,0,0,0,1.0,0) } }
        systems { update { on = n; dt = 1.0
            s1 = s0 * 1e2
        } }
    "#;
    let mut rt = started(src);
    rt.step_cross_n(1).unwrap();
    let st = rt.state(1);
    assert!((st[0] - 1e-3).abs() < 1e-12);
    assert!((st[1] - 0.1).abs() < 1e-9, "s1 = {}", st[1]);
}

/// A function body may be a sequence of `let` bindings ending with an
/// explicit `return expr`; parameter names bind as locals.
#[test]
fn function_return_with_lets() {
    let src = r#"
        world { gravity = (0,0,0) entity n { state = (s0=2.0, s1=1.0, s2=0.0, 0,0,1.0,0) } }
        funcs {
            norm(a, b) {
                let d = a - b
                return abs(d)
            }
        }
        systems { update { on = n; dt = 1.0  s2 = norm(2.0, 1.0) } }
    "#;
    let mut rt = started(src);
    rt.step_cross_n(1).unwrap();
    let st = rt.state(1);
    assert_eq!(st[2], 1.0, "|2-1|");
}

/// Function bodies support bounded loops (`repeat` / `for`) before the
/// `return`, with break/continue.
#[test]
fn function_return_with_loop() {
    let src = r#"
        world { gravity = (0,0,0) entity n { state = (s0=2.0, s1=1.0, 0,0,0,0,1.0,0) } }
        funcs {
            newton(x) {
                let g = s0
                repeat 8 { let g = (g + x / g) * 0.5 }
                return g
            }
            newtonb(x) {
                let g = s0
                repeat 100 {
                    let g = (g + x / g) * 0.5
                    break if (abs(g * g - x) < 1e-12)
                }
                return g
            }
        }
        systems { update { on = n; dt = 1.0
            s1 = newton(2.0) - s1
            s1 = newtonb(2.0) - s1
        } }
    "#;
    let mut rt = started(src);
    rt.step_cross_n(1).unwrap();
    let st = rt.state(1);
    assert!(
        (st[1] - 2.0_f64.sqrt()).abs() < 1e-9,
        "s1 = {}",
        st[1]
    );
}

/// A statement-form function body without `return` is rejected (the bare
/// expression form remains available).
#[test]
fn function_body_requires_return() {
    let src = "world { gravity=(0,0,0) entity a { state=(0,0,0,0,0,0,1,0); color=0x112233 } } \
               funcs { f(a) { let d = s0 * 2.0 } } \
               systems { update { on = a; dt = 1.0 s0 = f(1.0) } }";
    match try_compile(src) {
        Ok(_) => panic!("statement body without return should be rejected"),
        // The grammar requires `return`; the program-level parse fails.
        Err(e) => assert_eq!(e.detail, 60),
    }
    // Bare-expression bodies still work.
    let src2 =
        "world { gravity=(0,0,0) entity a { state=(0,0,0,0,0,0,1,0); color=0x112233 } } \
                funcs { f(a) { s0 * 2.0 } } \
                systems { update { on = a; dt = 1.0 s0 = f(1.0) } }";
    started(src2);
}

/// An invariant over a truthy expression holds across steps.
#[test]
fn invariant_holds_when_expression_truthy() {
    let src = "world { gravity=(0,0,0) entity chem { state=(a=1.0,b=0.0) } } \
               systems { update { on = chem; dt = 0.01 a = 0.0 * a; b = 0.0 * b } \
               invariant { on = chem; expr = (a + b) == 1.0 } }";
    let mut rt = started(src);
    rt.step_cross_n(5).unwrap();
    let st = rt.state(1);
    assert_eq!(st[0], 1.0);
    assert_eq!(st[1], 0.0);
}

/// A violated invariant fails the step before any write is applied: the
/// scene keeps its pre-step state.
#[test]
fn invariant_violation_fails_step_and_preserves_scene() {
    let src = "world { gravity=(0,0,0) entity chem { state=(a=1.0,b=0.0) } } \
               systems { update { on = chem; dt = 0.01 a = 0.0 - 1.0 } \
               invariant { on = chem; expr = (a + b) == 1.0 } }";
    let mut rt = started(src);
    match rt.step_cross() {
        Ok(_) => panic!("violated invariant should fail the step"),
        Err(e) => {
            assert_eq!(e.status, Status::EirInvalid);
            assert_eq!(e.detail, 69);
        }
    }
    let st = rt.state(1);
    assert_eq!(st[0], 1.0, "scene must be untouched");
}

/// A NaN state fails the invariant step too (the EIR's own comparison
/// rejection surfaces first), with the scene untouched.
#[test]
fn invariant_catches_nan_state() {
    let src = "world { gravity=(0,0,0) entity chem { state=(a=0.0) } } \
               systems { update { on = chem; dt = 0.01 a = sqrt(0.0 - 1.0) } \
               invariant { on = chem; expr = a == a } }";
    let mut rt = started(src);
    // The post-update check sees the NaN the step itself produced.
    assert!(rt.step_cross().is_err(), "NaN state must fail the step");
    let st = rt.state(1);
    assert_eq!(st[0], 0.0, "scene must be untouched");
}

/// `neighbor_count` / `nearest_dist` read the scene through EIR, shared by
/// both backends (cross-checked via `step_cross`).
#[test]
fn spatial_neighbor_count_and_nearest_dist() {
    let src = "world { gravity=(0,0,0) \
               entity a { state=(x=0.0,y=0.0,z=0.0) } \
               entity b { state=(x=1.0,y=0.0,z=0.0) } \
               entity c { state=(x=5.0,y=0.0,z=0.0) } } \
               systems { update { on = a; dt = 0.01 \
                 let n = neighbor_count(2.0); let d = nearest_dist() \
                 s3 = n; s4 = d } }";
    let mut rt = started(src);
    rt.step_cross_n(1).unwrap();
    let st = rt.state(1);
    assert_eq!(st[3] / 0.01, 1.0, "one neighbor within 2.0");
    assert!(
        (st[4] / 0.01 - 1.0).abs() < 1e-9,
        "nearest at distance 1"
    );
}

/// Gradual dimensional analysis: a correctly unit-annotated model compiles;
/// an inconsistent rule is rejected with detail 77. Unit-free models are
/// unaffected (wildcards never error).
#[test]
fn units_check_consistent_and_reject_mismatch() {
    let ok = "world { gravity=(0,0,0) params { k = 4.0 [1/s^2] } \
              entity e { state = (x = 1.0 [m], vx = 0.0 [m/s]) } } \
              systems { update { on = e; dt = 0.1 [s] \
                vx = 0.0 - k * x \n x = vx } }";
    started(ok);

    let bad = "world { gravity=(0,0,0) params { k = 4.0 [1/s^2] } \
               entity e { state = (x = 1.0 [m], vx = 0.0 [m/s]) } } \
               systems { update { on = e; dt = 0.1 [s] \
                 x = 0.0 - k * x \n vx = vx } }";
    match try_compile(bad) {
        Ok(_) => panic!("dimension mismatch must be rejected"),
        Err(e) => assert_eq!(e.detail, 77),
    }

    // Unannotated model: never errors.
    let free = "world { gravity=(0,0,0) entity e { state=(x=1.0) } } \
                systems { update { on = e; dt = 0.1; x = 0.0 - x } }";
    started(free);
}

/// Units also cover `when` gates (must be dimensionless) and the internal
/// consistency of `invariant` expressions.
#[test]
fn units_cover_when_and_invariant() {
    let bad_when = "world { gravity=(0,0,0) entity e { state=(x=1.0 [m]) } } \
                    systems { update { on = e; dt = 0.1 when = x x = 0.0 - x } }";
    match try_compile(bad_when) {
        Ok(_) => panic!("a dimensioned `when` gate must be rejected"),
        Err(e) => assert_eq!(e.detail, 77),
    }
    // `x` (m) + `t` (s) is dimensionally inconsistent inside an invariant.
    let bad_inv = "world { gravity=(0,0,0) entity e { state=(x=1.0 [m]) } } \
                   systems { invariant { on = e; expr = x + t } }";
    match try_compile(bad_inv) {
        Ok(_) => panic!("m + s must be rejected"),
        Err(e) => assert_eq!(e.detail, 77),
    }
    // A dimensionless gate over a dimensioned model is fine.
    let ok = "world { gravity=(0,0,0) \
              entity e { state=(x=1.0 [m], vx=0.5 [m/s], gate=0.0) } } \
              systems { update { on = e; dt = 0.1 [s] when = gate > 0.0 x = vx } }";
    started(ok);
}

/// Scheduled events: `at(T)` fires in exactly one step (the window that
/// contains `T`); `periodic(P)` fires once per period.
#[test]
fn scheduled_events_fire_exactly_once() {
    let src = "world { gravity=(0,0,0) entity e { state=(x=0.0, fires=0.0) } } \
               systems { update { on = e; dt = 0.5 \
                 x = 0.0 + 1.0 \
                 fires = if(at(1.0), 1.0, 0.0) + if(periodic(1.0), 1.0, 0.0) } }";
    let mut rt = started(src);
    // 6 steps at dt=0.5 -> t = 0, 0.5, 1.0, 1.5, 2.0, 2.5.
    rt.step_cross_n(6).unwrap();
    let fires = rt.state(1)[1];
    // at(1.0) fires once; periodic(1.0) fires at t=0,1,2 (three times).
    // fires += dt * (1 + 3) = 0.5 * 4 = 2.0.
    assert!((fires - 2.0).abs() < 1e-12, "fires={fires}");
}

/// Python-style modules: `import "m"` binds namespace `m` (`m::f`, `m::G`),
/// `from "m" import f` binds bare, packages resolve via `__init__.pwe`, and
/// a module's own systems resolve their bare parameter/function names within
/// their own namespace.
#[test]
fn modules_packages_and_namespaces() {
    let mut files = Files::new();
    files.add(
        "shapes/__init__.pwe",
        "world { entity body { state=(x=1.0, vx=0.0) } }\n",
    );
    files.add(
        "physics.pwe",
        "world { params { G = 2.0 } }\nfuncs { thrust(m) { m * 0.5 } }\n\
         systems { update { on = body; dt = 0.1 vx = 0.0 - G * x } }\n",
    );
    // Qualified access (`physics.G`, `physics.thrust`) + package entity.
    files.add(
        "main.pwe",
        "world { gravity=(0,0,0)\n import \"shapes\"\n import \"physics\" }\n\
         systems { update { on = body; dt = 0.1 \
           vx = 0.0 - physics.G * x + 0.0 * physics.thrust(2.0) } }\n",
    );
    let rt = files.compile_file("main.pwe").unwrap();
    assert_eq!(rt.lang.scene.entities.entries.len(), 1, "package entity present");
    assert_eq!(rt.lang.scene.params.get("physics.G").copied(), Some(bits(2.0)));
    // `from … import …` binds bare.
    files.add(
        "from.pwe",
        "from \"physics\" import thrust\n\
         world { gravity=(0,0,0)\n import \"shapes\" }\n\
         systems { update { on = body; dt = 0.1 vx = 0.0 - 0.0 * x + 0.0 * thrust(3.0) } }\n",
    );
    files.compile_file("from.pwe").unwrap();
    // Missing module.
    files.add(
        "missing.pwe",
        "world { gravity=(0,0,0) }\nimport \"nope\"\n",
    );
    match files.compile_file("missing.pwe") {
        Ok(_) => panic!("missing module must fail"),
        Err(e) => assert_eq!(e.detail, 76),
    }
    // Duplicate entity across modules.
    files.add("dup.pwe", "world { entity body { state=(0) } }\n");
    files.add(
        "dup2.pwe",
        "world { gravity=(0,0,0) }\nimport \"shapes\"\nimport \"dup\"\n",
    );
    match files.compile_file("dup2.pwe") {
        Ok(_) => panic!("duplicate entity must be rejected"),
        Err(e) => assert_eq!(e.detail, 76),
    }
}

/// `spawn` activates one free slot per step and copies the
/// caller's state; inactive slots are hidden; `despawn` clears them.
#[test]
fn pool_spawn_despawn_roundtrip() {
    let src = "world { gravity=(0,0,0) \
               entity emitter { state = (x = 5.0, y = 1.0) } \
               pool p[3] { state = (x = 0.0, y = 0.0) } } \
               systems { spawn { on = emitter; pool = p } }";
    let mut rt = started(src);
    // Boot: only the emitter (id 1) is active.
    assert_eq!(rt.active().len(), 1);
    rt.step_cross().unwrap();
    rt.step_cross().unwrap();
    let active: Vec<u128> = rt.active();
    assert!(
        active.contains(&2) && active.contains(&3),
        "active={active:?}"
    );
    assert!(!active.contains(&4), "third step not yet taken: {active:?}");
    // The slot received the caller's state.
    let s = rt.state(2);
    assert_eq!((s[0], s[1]), (5.0, 1.0));

    // `despawn` with a `when` that never holds leaves the slots active.
    let src2 = "world { gravity=(0,0,0) \
                entity emitter { state = (x = 5.0) } \
                pool p[2] { state = (x = 0.0) } } \
                systems { spawn { on = emitter; pool = p } \
                          despawn { on = p; when = x > 100.0 } }";
    let mut rt2 = started(src2);
    rt2.step_cross().unwrap();
    assert!(rt2.active().contains(&2));
    // A `when` that always holds clears them.
    let src3 = "world { gravity=(0,0,0) \
                entity emitter { state = (x = 5.0) } \
                pool p[2] { state = (x = 0.0) } } \
                systems { spawn { on = emitter; pool = p } \
                          despawn { on = p; when = active() and x > 0.0 } }";
    let mut rt3 = started(src3);
    rt3.step_cross().unwrap();
    assert!(!rt3.active().contains(&2));
}

/// `spawn` batches (`count = n`) and phases (`every`/`phase`).
#[test]
fn pool_spawn_batch_and_phase() {
    let count_active =
        |rt: &Rt| rt.active().len();
    // Batch: three slots per step.
    let batch = "world { gravity=(0,0,0) entity e { state = (x = 1.0) } \
                 pool p[6] { state = (x = 0.0) } } \
                 systems { spawn { on = e; pool = p; count = 3 } }";
    let mut rt = started(batch);
    rt.step_cross().unwrap();
    assert_eq!(count_active(&rt), 1 + 3);
    rt.step_cross().unwrap();
    assert_eq!(count_active(&rt), 1 + 6);
    // Phased: emit only on even steps.
    let phased = "world { gravity=(0,0,0) entity e { state = (x = 1.0) } \
                  pool p[6] { state = (x = 0.0) } } \
                  systems { spawn { on = e; pool = p; every = 2 } }";
    let mut rt = started(phased);
    rt.step_cross().unwrap(); // step 0 -> emit
    assert_eq!(count_active(&rt), 1 + 1);
    rt.step_cross().unwrap(); // step 1 -> skip
    assert_eq!(count_active(&rt), 1 + 1);
    rt.step_cross().unwrap(); // step 2 -> emit
    assert_eq!(count_active(&rt), 1 + 2);
    // Phase offset: `every = 2; phase = 1` emits on odd steps.
    let offset = "world { gravity=(0,0,0) entity e { state = (x = 1.0) } \
                  pool p[6] { state = (x = 0.0) } } \
                  systems { spawn { on = e; pool = p; every = 2; phase = 1 } }";
    let mut rt = started(offset);
    rt.step_cross().unwrap(); // step 0 -> skip
    assert_eq!(count_active(&rt), 1);
    rt.step_cross().unwrap(); // step 1 -> emit
    assert_eq!(count_active(&rt), 1 + 1);
}

#[test]
fn unresolved_bare_name_reads_zero() {
    let src = "world { gravity=(0,0,0) entity e { state=(x=0.0) } } \
               systems { update { on = e; dt = 0.5 x = 3.0 + zzz } }";
    let mut rt = started(src);
    rt.step_cross_n(1).unwrap();
    let st = rt.state(1);
    assert!((st[0] - 1.5).abs() < 1e-12, "got {}", st[0]);
}

/// The `wave` solver integrates `u_tt = c²∇²u` with a leapfrog over two
/// fields: a symmetric initial pulse stays symmetric and splits outwards
/// from the centre, and remains finite.
#[test]
fn wave_solver_propagates_symmetrically() {
    let src = "world { gravity=(0,0,0) \
               field u { width=41; height=1; dx=1.0 } \
               field um { width=41; height=1; dx=1.0 } \
               entity e { state=(x=0.0) } } \
               systems { wave { field = u; prev = um; velocity = 1.0; dt = 0.5 } }";
    let mut rt = started(src);
    rt.set_cell("u", 20, 0, 1.0);
    rt.set_cell("um", 20, 0, 1.0);
    rt.step_cross_n(8).unwrap();
    for k in 0..20usize {
        assert!(
            (rt.cell("u", 20 - k, 0, 0) - rt.cell("u", 20 + k, 0, 0)).abs() < 1e-9,
            "asymmetric at k={k}"
        );
    }
    assert!(rt.cell("u", 20, 0, 0).abs() < 1.0, "centre should give up energy");
    assert!(rt.cell("u", 20, 0, 0).is_finite());
    assert!(
        rt.cell("u", 20 + 5, 0, 0).abs() > 1e-6 || rt.cell("u", 20 + 8, 0, 0).abs() > 1e-6,
        "the pulse must have spread outwards"
    );
}

/// 3D field solvers: `diffuse` is exactly conservative in a 3D grid, and
/// `poisson` yields a potential well around a positive source (depth > 1).
#[test]
fn field_solver_systems_3d() {
    let d3 = "world { gravity=(0,0,0) field heat { width=5; height=5; depth=5; dx=1.0 } \
              entity e { state=(x=0.0) } } \
              systems { diffuse { field = heat; rate = 0.1 } \
                update { on = e; dt = 1.0 \
                  let _ = fset(heat, 2.0, 2.0, 2.0, fget(heat, 2.0, 2.0, 2.0) + 1.0) \
                  x = 0.0 + 1.0 } }";
    let mut rt = started(d3);
    rt.step_cross_n(12).unwrap();
    let f = rt.lang.scene.fields.get("heat").unwrap();
    assert_eq!((f.width, f.height, f.depth), (5, 5, 5));
    assert!(
        (rt.total("heat") - 12.0).abs() < 1e-9,
        "3D diffuse conserves: {}",
        rt.total("heat")
    );

    let poi = "world { gravity=(0,0,0) field phi { width=5; height=5; depth=5; dx=1.0 } \
               field rho { width=5; height=5; depth=5; dx=1.0 } entity e { state=(x=0.0) } } \
               systems { poisson { field = phi; source = rho; iters = 20 } \
                 update { on = e; dt = 1.0 \
                   let _ = fset(rho, 2.0, 2.0, 2.0, 1.0) x = 0.0 + 1.0 } }";
    let mut rt = started(poi);
    rt.step_cross_n(2).unwrap();
    assert!(
        rt.cell("phi", 2, 2, 2) < 0.0,
        "3D potential well: {}",
        rt.cell("phi", 2, 2, 2)
    );
}

/// Per-entity render attributes (`shape`/`size`/`opacity`/`glow`/`label`)
/// parse into the entity's render style (presentation only).
#[test]
fn entity_render_attributes_parse() {
    let src = "world { gravity=(0,0,0) entity a { state=(x=0.0) shape=sphere; size=1.5; \
               color=0xFF6B4A; glow=1.2; opacity=0.6; label=false } }";
    let model = parsed(src).unwrap().model;
    let e = &model.entities[0];
    let r = e.render.as_ref().expect("render style");
    assert_eq!(r.shape, Some(1));
    assert_eq!(r.size, Some(bits(1.5)));
    assert_eq!(r.glow, Some(bits(1.2)));
    assert_eq!(r.opacity, Some(bits(0.6)));
    assert_eq!(r.label, Some(false));
    assert_eq!(e.color, Some(0xFF6B4A));
}

/// User-defined custom shapes (`shape <name> { part … }`) parse into the
/// model and resolve to the entity's render parts at build time.
#[test]
fn custom_shapes_resolve_from_parts() {
    let src = "world { gravity=(0,0,0) \
        shape gizmo { part capsule = (0.05, 0.3, 0.05); part sphere = 0.1 at (0, 0.2, 0.0); \
          part svg = \"M 0,0 L 1,0 L 1,1 Z\" depth 0.2 scale 0.5 at (0, 1.0, 0.0); \
          part hull = [(0,0,0), (1,0,0), (0,1,0), (0,0,1)]; \
          part poly = [(0,1,0), (1,0,1), (-1,0,1)] faces = [[0,1,2]] scale 2.0; } \
        entity e { state=(x=0.0) shape = gizmo } }";
    let model = parsed(src).unwrap().model;
    let g = &model.shapes.get("gizmo").unwrap().parts;
    assert_eq!(g.len(), 5);
    assert_eq!(g[2].kind, 4, "svg part");
    assert_eq!(g[2].path.as_deref(), Some("M 0,0 L 1,0 L 1,1 Z"));
    assert!((f64::from_bits(g[2].size.x) - 0.2).abs() < 1e-9, "svg depth");
    assert!((f64::from_bits(g[2].scale) - 0.5).abs() < 1e-9, "svg scale");
    assert_eq!(g[3].kind, 5, "hull part");
    assert_eq!(g[3].points.len(), 4);
    assert_eq!(g[4].kind, 6, "poly part");
    assert_eq!(g[4].faces, vec![vec![0u32, 1, 2]]);
    assert!((f64::from_bits(g[4].scale) - 2.0).abs() < 1e-9, "poly amplitude");
    assert_eq!(g[1].kind, 1);
    assert_eq!(g[1].offset, triple(0.0, 0.2, 0.0));
    let style = model.entities[0].render.as_ref().unwrap();
    assert_eq!(style.shape_name.as_deref(), Some("gizmo"));
}

/// A named state slot that merely starts with `s` (e.g. `speed`) is not a
/// numeric `sN` token and must still resolve to its slot.
#[test]
fn named_slots_starting_with_s_resolve() {
    let src = "world { gravity=(0,0,0) entity e { state=(speed=0.0, s0x=0.0) } } \
               systems { update { on = e; dt = 1.0
                 speed = 4.0 + 0.0
                 s0x = 9.0 + 0.0 } }";
    let mut rt = started(src);
    rt.step_cross_n(1).unwrap();
    let st = rt.state(1);
    assert_eq!((st[0], st[1]), (4.0, 9.0));
}

/// Field solver system kinds: `diffuse` conserves the injected total
/// exactly (Jacobi sweep), and `poisson` relaxes toward a negative
/// potential around a positive source.
#[test]
fn field_solver_systems() {
    let src = "world { gravity=(0,0,0) field heat { width=8; height=8; dx=1.0 } \
               entity e { state=(x=0.0) } } \
               systems { diffuse { field = heat; rate = 0.2 } \
                 update { on = e; dt = 1.0 \
                   let _ = fset(heat, 4.0, 4.0, fget(heat, 4.0, 4.0) + 1.0) \
                   x = 0.0 + 1.0 } }";
    let mut rt = started(src);
    rt.step_cross_n(10).unwrap();
    let total = rt.total("heat");
    assert!(
        (total - 10.0).abs() < 1e-9,
        "diffuse must conserve: {total}"
    );

    let poi = "world { gravity=(0,0,0) field phi { width=6; height=6; dx=1.0 } \
               field rho { width=6; height=6; dx=1.0 } entity e { state=(x=0.0) } } \
               systems { poisson { field = phi; source = rho; iters = 40 } \
                 update { on = e; dt = 1.0 \
                   let _ = fset(rho, 3.0, 3.0, 1.0) x = 0.0 + 1.0 } }";
    let mut rt = started(poi);
    rt.step_cross_n(3).unwrap();
    assert!(
        rt.cell("phi", 3, 3, 0) < 0.0,
        "positive source yields a negative potential well: {}",
        rt.cell("phi", 3, 3, 0)
    );
}

/// Circular imports resolve (a module is loaded once and reachable by every
/// alias): `a` imports `b` which imports `a`, and both are called.
#[test]
fn circular_imports_and_multiple_aliases_resolve() {
    let mut files = Files::new();
    files.add(
        "x.pwe",
        "world { params { G = 1.0 } }\nfuncs { fx(v) { v + G } }\n",
    );
    files.add(
        "a.pwe",
        "import \"x\" as alpha\nworld { }\nimport \"b\"\n\
         systems { update { on = e; dt = 1.0 s0 = alpha.fx(0.0) + b.g(0.0) } }\n",
    );
    files.add(
        "b.pwe",
        "import \"a\"\nimport \"x\"\nworld { }\n\
         funcs { g(v) { v + 100.0 } }\n\
         systems { update { on = e; dt = 1.0 s1 = x.fx(0.0) } }\n",
    );
    files.add(
        "main.pwe",
        "import \"a\"\nimport \"b\"\nworld { gravity=(0,0,0) entity e { state=(s0=0.0, s1=0.0) } }\n",
    );
    let mut rt = files.compile_file("main.pwe").unwrap();
    // Both aliases of the same module are usable, and the cycle merges once.
    rt.step_cross_n(1).unwrap();
    let st = rt.state(1);
    assert!(
        st[0] > 0.0 && st[1] > 0.0,
        "both alias references resolved: {:?}",
        st
    );
    // `--param`-style override reaches every alias of one parameter.
    let canon: Vec<String> = rt
        .lang
        .scene
        .params
        .entries
        .iter()
        .map(|e| e.0.clone())
        .filter(|k| k.ends_with(".G") || k == "G")
        .collect();
    assert!(
        canon.len() >= 2,
        "module imported under two namespaces: {canon:?}"
    );
}

/// `params { … }` declares runtime-settable model parameters that rules
/// read by name (overridable on the scene before running).
#[test]
fn model_params_read_and_override() {
    let src =
        "world { gravity=(0,0,0) params { G = 10.0 } entity e { state=(x=1.0,vx=0.0) } } \
               systems { update { on = e; dt = 0.1; vx = 0.0 - G * x; x = vx } }";
    let mut rt = started(src);
    assert_eq!(rt.lang.scene.params.get("G").copied(), Some(bits(10.0)));
    rt.step_cross_n(5).unwrap();
    let a = rt.state(1)[1];
    // Same model, overridden parameter -> different trajectory.
    let mut rt2 = started(src);
    rt2.lang.scene.params.insert("G".to_string(), bits(1.0));
    rt2.step_cross_n(5).unwrap();
    let b = rt2.state(1)[1];
    assert_ne!(a, b, "overriding G must change the trajectory");
}

/// Neighborhood aggregates and directional sensing: `neighbor_mean`
/// averages a State slot over neighbours within a radius (0 when none),
/// and `nearest_dx/dy/dz` give the offset to the closest neighbour.
#[test]
fn neighborhood_aggregates_and_offsets() {
    let src = "world { gravity=(0,0,0) \
               entity a { state=(x=0.0, y=0.0, z=0.0, vx=10.0, vy=0.0, vz=0.0) } \
               entity b { state=(x=2.0, y=0.0, z=0.0, vx=20.0, vy=0.0, vz=0.0) } \
               entity c { state=(x=9.0, y=0.0, z=0.0, vx=90.0, vy=0.0, vz=0.0) } } \
               systems { update { on = a; dt = 1.0 \
                 let n = neighbor_count(3.0) \
                 let mx = neighbor_mean(0.0, 3.0) \
                 let mv = neighbor_mean(3.0, 3.0) \
                 s6 = n; s7 = mx; s8 = mv; s9 = nearest_dx(); s10 = nearest_dy() } }";
    let mut rt = started(src);
    rt.step_cross_n(1).unwrap();
    let v = rt.state(1);
    assert_eq!(v[6], 1.0, "one neighbour within 3.0 (b, not c)");
    assert_eq!(v[7], 2.0, "mean x of neighbours = b.x");
    assert_eq!(v[8], 20.0, "mean vx of neighbours = b.vx");
    assert_eq!(v[9], 2.0, "nearest_dx = b.x - a.x");
    assert_eq!(v[10], 0.0, "nearest_dy");

    // Alone: aggregate and offset are 0.
    let lone = "world { gravity=(0,0,0) entity only { state=(0.0,0.0,0.0) } } \
                systems { update { on = only; dt = 1.0 \
                  s3 = neighbor_mean(0.0, 5.0); s4 = nearest_dx() } }";
    let mut rt = started(lone);
    rt.step_cross_n(1).unwrap();
    let v = rt.state(1);
    assert_eq!(v[3], 0.0);
    assert_eq!(v[4], 0.0);
}

/// A spatial query in a function body is rejected at compile time: there
/// is no per-entity context to target.
#[test]
fn spatial_query_rejected_in_function_body() {
    let src = "world { gravity=(0,0,0) entity a { state=(x=0.0) } } \
               funcs { f() { neighbor_count(2.0) } } \
               systems { update { on = a; dt = 0.01 s3 = f() } }";
    match try_compile(src) {
        Ok(_) => panic!("query in a function body should be rejected"),
        Err(e) => assert_eq!(e.detail, 70),
    }
}

/// Two invariants coexist: each owns its own verdict field in the hidden
/// check component.
#[test]
fn multiple_invariants_coexist() {
    let src = "world { gravity=(0,0,0) entity chem { state=(a=1.0,b=0.0) } } \
               systems { update { on = chem; dt = 0.01 a = 0.0 * a; b = 0.0 * b } \
               invariant { on = chem; expr = (a + b) == 1.0 } \
               invariant { on = chem; expr = a >= 0.0 } }";
    let mut rt = started(src);
    rt.step_cross_n(3).unwrap();
}

/// `noise()` draws a seeded standard normal; a fresh runtime reproduces it.
#[test]
fn noise_is_seeded_and_reproducible() {
    let src = "world { gravity=(0,0,0) entity e { state=(s0=0.0) } } \
               systems { update { on = e; dt = 1.0 let n = noise() s1 = n } }";
    let mut rt = started(src);
    rt.step_cross_n(1).unwrap();
    let v = rt.state(1)[1];
    assert!(v.is_finite(), "noise must be finite, got {v}");
    let mut rt2 = started(src);
    rt2.step_cross_n(1).unwrap();
    let v2 = rt2.state(1)[1];
    assert_eq!(v, v2, "seeded draws must reproduce");
}

/// `vlen`/`vdot`/`vdist` compute over scalar components (pure arithmetic).
#[test]
fn vector_builtins_compute_lengths_and_dots() {
    let src = "world { gravity=(0,0,0) entity e { state=(s0=0.0) } } \
               systems { update { on = e; dt = 1.0 \
                 let l = vlen(3.0, 4.0, 0.0) \
                 let d = vdot(1.0, 0.0, 0.0, 0.0, 1.0, 0.0) \
                 let dist = vdist(0.0,0.0,0.0, 3.0,4.0,0.0) \
                 s1 = l; s2 = d; s3 = dist } }";
    let mut rt = started(src);
    rt.step_cross_n(1).unwrap();
    let st = rt.state(1);
    assert_eq!(st[1], 5.0);
    assert_eq!(st[2], 0.0);
    assert_eq!(st[3], 5.0);
}

/// `when = expr` gates every rule's write: the state is untouched when the
/// gate is 0 (mode semantics).
#[test]
fn when_gates_rule_writes_by_mode() {
    let src = "world { gravity=(0,0,0) entity m { state=(mode=1.0,x=0.0) } } \
               systems { update { on = m; dt = 1.0 when = mode == 0.0 x = 0.0 + 1.0 } \
               update { on = m; dt = 1.0 when = mode == 1.0 mode = 0.0 - 2.0 * mode } }";
    let mut rt = started(src);
    rt.step_cross_n(1).unwrap();
    let st = rt.state(1);
    assert_eq!(st[1], 0.0, "gated rule must not apply");
    assert_eq!(st[0], -1.0, "ungated rule must apply");
}

/// A gate that does not hold leaves the state as it is, whatever the rule comes to.
#[test]
fn a_gate_keeps_out_what_is_not_finite() {
    for kind in ["update", "rk4"] {
        let src = format!(
            "world {{ gravity=(0,0,0) entity m {{ state=(x=3.0,d=0.0) }} }} \
             systems {{ {kind} {{ on = m; dt = 1.0 when = d > 0.5 x = 1.0 / d }} }}"
        );
        let mut rt = started(&src);
        rt.step_cross_n(2).unwrap();
        assert_eq!(rt.state(1)[0], 3.0, "{kind}");
    }
}

/// `until` is checked behind every iteration, a continued one too.
#[test]
fn a_continued_iteration_is_checked() {
    let src = "world { gravity=(0,0,0) entity e { state=(x=0.0,m=0.0) } } \
               systems { update { on = e; dt = 1.0 let k = 0.0 let j = 0.0 \
               repeat 5 until (k > 1.5) { let k = k + 1.0 continue if (k > 0.5) let j = j + 1.0 } \
               x = k + 0.0 m = j + 0.0 } }";
    let mut rt = started(src);
    rt.step_cross().unwrap();
    assert_eq!(rt.state(1)[..2], [2.0, 0.0]);
}

/// What a loop does not run leaves its locals alone, and what it runs binds them exactly.
#[test]
fn a_gate_keeps_or_replaces_a_local() {
    let src = "world { gravity=(0,0,0) entity e { state=(x=0.0,y=0.0,d=0.0) } } \
               systems { update { on = e; dt = 1.0 let a = 7.0 let b = 1e300 \
               repeat 3 { break if (d == 0.0) let a = 1.0 / d } \
               repeat 2 { let b = 1.0 break } \
               x = a + 0.0 y = b + 0.0 } }";
    let mut rt = started(src);
    rt.step_cross().unwrap();
    assert_eq!(rt.state(1)[..2], [7.0, 1.0]);
}

/// A field is swept in every step, whatever entity carries the sweep.
#[test]
fn a_sweep_does_not_wait_for_a_slot() {
    let src = "world { gravity=(0,0,0) field heat { width = 3; height = 3 } \
               pool p[2] { state=(x=0.0) } } systems { diffuse { field = heat; rate = 0.1 } }";
    let mut rt = started(src);
    rt.set_cell("heat", 1, 1, 10.0);
    rt.step_cross().unwrap();
    assert!(rt.cell("heat", 1, 1, 0) < 10.0);
    assert!(rt.cell("heat", 1, 0, 0) > 0.0);
}

/// A slot whose index is computed reads as the others do: as the step found it.
#[test]
fn computed_slots_are_read_with_the_others() {
    let src = "world { gravity=(0,0,0) entity e { state=(x=1.0,y=10.0,z=100.0) } } \
               systems { update { on = e; dt = 1.0 x = y + 0.0 y = s[0] + 0.0 s[2] = s[0] + s[1] } }";
    let mut rt = started(src);
    rt.step_cross().unwrap();
    assert_eq!(rt.state(1)[..3], [11.0, 11.0, 111.0]);
}

/// A rule reads slots that no rule writes.
#[test]
fn a_derivative_reads_every_slot() {
    let src = "world { gravity=(0,0,0) entity e { state=(1.0,5.0) } } \
               systems { rk4 { on = e; dt = 0.5 s0 = s1 } }";
    let mut rt = started(src);
    rt.step_cross().unwrap();
    assert_eq!(rt.state(1)[0], 3.5);
    assert_eq!(rt.state(1)[1], 5.0);
}

/// A sender computes with what it reads of another entity.
#[test]
fn a_sender_reads_another_entity() {
    let src = "world { gravity=(0,0,0) chan wire { value = 0 } \
               entity a { state=(4.0,0.0) } entity b { state=(7.0,0.0) } } \
               systems { send { chan = wire; value = @a.s0 + 1.0 } }";
    let mut rt = started(src);
    rt.step_cross().unwrap();
    assert_eq!(rt.state(3)[0], 5.0);
}

/// A unit stands behind the value of its parameter.
#[test]
fn parameters_have_their_units() {
    let p = parsed("world { gravity=(0,0,0) params { k = 4.0 [1/s^2] m = 2.0 } } systems { }").unwrap();
    assert_eq!(p.model.params.get("k"), Some(&bits(4.0)));
    assert_eq!(p.model.params.get("m"), Some(&bits(2.0)));
    let unit = p.model.param_units.get("k").unwrap();
    assert_eq!((unit.m, unit.kg, unit.s), (0, 0, -2));
    assert!(p.model.param_units.get("m").is_none());
}

/// Rules leave a slot of a pool alone until it is taken.
#[test]
fn a_free_slot_does_not_move() {
    let src = "world { gravity=(0,0,0) entity a { state=(x=1.0) } pool p[2] { state=(x=0.0) } } \
               systems { update { dt = 1.0 x = 0.0 + 2.0 } \
               spawn { on = a; pool = p; every = 100; phase = 1 } }";
    let mut rt = started(src);
    rt.step_cross().unwrap();
    assert_eq!((rt.state(1)[0], rt.state(2)[0]), (3.0, 0.0));
    rt.step_cross().unwrap();
    assert_eq!(rt.active(), vec![1, 2]);
    let taken = rt.state(2)[0];
    rt.step_cross().unwrap();
    assert_eq!((rt.state(2)[0], rt.state(3)[0]), (taken + 2.0, 0.0));
}

/// A rule on a slot that is taken keeps to its schedule.
#[test]
fn a_taken_slot_keeps_the_schedule() {
    let src = "world { gravity=(0,0,0) entity a { state=(x=1.0) } pool p[1] { state=(x=0.0) } } \
               systems { update { every = 2; dt = 1.0 x = 0.0 + 2.0 } \
               spawn { on = a; pool = p; every = 100 } }";
    let mut rt = started(src);
    rt.step_cross().unwrap();
    assert_eq!((rt.state(1)[0], rt.state(2)[0]), (3.0, 3.0));
    rt.step_cross().unwrap();
    assert_eq!((rt.state(1)[0], rt.state(2)[0]), (3.0, 3.0));
    rt.step_cross().unwrap();
    assert_eq!((rt.state(1)[0], rt.state(2)[0]), (5.0, 5.0));
}

/// A crossing is told by the signs of the two values, however small they are.
#[test]
fn a_watch_tells_small_crossings() {
    let src = "world { gravity=(0,0,0) entity e { state=(x=1e-200,m=-1e-200,f=0.0) } } \
               systems { watch { on = e; expr = x; mem = 1; into = 2 } }";
    let mut rt = started(src);
    rt.step_cross().unwrap();
    assert_eq!(rt.state(1)[2], 1.0);
    assert_eq!(rt.state(1)[1], 1e-200);
    rt.step_cross().unwrap();
    assert_eq!(rt.state(1)[2], 0.0);
}

/// `substeps = n` runs the integration n times with dt/n; finer Euler
/// tracks the analytic solution better.
#[test]
fn substeps_improve_euler_accuracy() {
    let mk = |sub: usize| {
        format!(
            "world {{ gravity=(0,0,0) entity o {{ state=(x=1.0) }} }} \
             systems {{ update {{ on = o; dt = 0.5; substeps = {sub}; x = 0.0 - x }} }}"
        )
    };
    let analytic = (-1.0f64).exp();
    let mut rt = started(&mk(1));
    rt.step_cross_n(2).unwrap();
    let a1 = rt.state(1)[0];
    let mut rt = started(&mk(4));
    rt.step_cross_n(2).unwrap();
    let a4 = rt.state(1)[0];
    assert!(
        (a4 - analytic).abs() < (a1 - analytic).abs(),
        "substeps=4 ({a4}) must track the analytic {analytic} better than substeps=1 ({a1})"
    );
}

/// `substeps = n` on `rk4` repeats the whole RK4 step with dt/n; RK4's
/// accuracy makes substeps redundant for smooth laws, but they must run.
#[test]
fn rk4_substeps_run() {
    let mk = |sub: usize| {
        format!(
            "world {{ gravity=(0,0,0) entity o {{ state=(x=1.0) }} }} \
             systems {{ rk4 {{ on = o; dt = 0.5; substeps = {sub}; x = 0.0 - x }} }}"
        )
    };
    let analytic = (-1.0f64).exp();
    let mut rt = started(&mk(2));
    rt.step_cross_n(2).unwrap();
    let a = rt.state(1)[0];
    assert!(
        (a - analytic).abs() < 1e-4,
        "rk4 with substeps must stay accurate: {a} vs {analytic}"
    );
}

/// Grid field access: `fset` writes a cell, `fget` reads it back in the
/// same step (the write overlay), `flap` computes the zero-flux stencil
/// laplacian; the cell write persists in the scene's field.
#[test]
fn field_access_reads_and_writes_cells() {
    let src = "world { gravity=(0,0,0) \
               field heat { width = 4; height = 4; dx = 1.0 } \
               entity e { state=(s0=0.0,s1=0.0,s2=0.0) } } \
               systems { update { on = e; dt = 1.0 \
                 fset(heat, 1.0, 2.0, 0.0 + 7.0) \
                 s0 = fget(heat, 1.0, 2.0) \
                 s1 = flap(heat, 1.0, 2.0) \
                 s2 = fget(heat, 3.0, 3.0) } }";
    let mut rt = started(src);
    rt.step_cross_n(1).unwrap();
    let st = rt.state(1);
    assert_eq!(st[0], 7.0, "fget sees the same-step write");
    assert_eq!(st[1], -28.0, "laplacian of a lone 7 among zeros");
    assert_eq!(st[2], 0.0);
    assert_eq!(rt.cell("heat", 1, 2, 0), 7.0, "the cell write persists");
    assert_eq!(rt.total("heat"), 7.0);
}

/// A field declaration without dimensions is rejected.
#[test]
fn field_declaration_requires_dimensions() {
    let src = "world { gravity=(0,0,0) field heat { dx = 1.0 } }";
    match try_compile(src) {
        Ok(_) => panic!("a field without width/height should be rejected"),
        Err(e) => assert_eq!(e.detail, 75),
    }
}

/// `vec3 pos` in a state list reserves N consecutive slots named `pos`,
/// `pos.0` … `pos.{N-1}`; `@self.state.pos.1` reads component 1.
#[test]
fn vecn_state_reserves_named_slots() {
    let src = "world { gravity=(0,0,0) entity e { state = (vec3 pos, mass = 1.0) } } \
               systems { update { on = e; dt = 1.0 \
                 s0 = 0.0 + 5.0 \
                 s5 = @self.state.pos.1 } }";
    let mut rt = started(src);
    rt.step_cross_n(1).unwrap();
    let st = rt.state(1);
    assert_eq!(st[0], 5.0, "pos.0 (slot 0) written");
    assert_eq!(st[3], 1.0, "mass follows the 3 vec slots");
    // `pos.1` (slot 1) reads the pre-step value (simultaneous rules).
    assert_eq!(st[5], 0.0);
}

/// The world `title = "..."` and an entity's `parent = <name>` parse into
/// the model (`pwe present` uses them for the run-info panel).
#[test]
fn title_and_parent_parse() {
    let src = "world { title = \"solar system (8 planets + Moon)\" gravity=(0,0,0) \
               entity moon { parent = earth; state=(0) } entity earth { state=(0) } }";
    let p = parsed(src).unwrap();
    assert_eq!(
        p.model.title.as_deref(),
        Some("solar system (8 planets + Moon)")
    );
    assert_eq!(p.model.entities[0].parent.as_deref(), Some("earth"));
    assert_eq!(p.model.entities[1].parent, None);
}

/// `%` is a remainder operator (fmod semantics) — used by grid walks.
#[test]
fn modulo_operator_computes_remainder() {
    let src = "world { gravity=(0,0,0) entity e { state=(0,0) } } \
               systems { update { on = e; dt = 1.0 s0 = 255.0 % 16.0; s1 = 7.0 % 3.0 } }";
    let mut rt = started(src);
    rt.step_cross_n(1).unwrap();
    let st = rt.state(1);
    assert_eq!(st[0], 15.0);
    assert!((st[1] - 1.0).abs() < 1e-12);
}

/// An out-of-range grid field access fails the step with a clear error
/// instead of panicking in the runtime path.
#[test]
fn out_of_range_field_access_is_an_error() {
    let src = "world { gravity=(0,0,0) field g { width=4; height=4; dx=1.0 } \
               entity e { state=(0) } } \
               systems { update { on = e; dt = 1.0 s0 = fget(g, 2.0, 9.0) } }";
    let mut rt = started(src);
    match rt.step_cross() {
        Ok(_) => panic!("out-of-range field access should fail the step"),
        Err(e) => assert_eq!(e.detail, 7),
    }
}

/// `last_event(kind)` reads the most recent event of that kind emitted so
/// far in the step; unknown kinds read 0. Events are cleared each step.
#[test]
fn last_event_reads_within_the_step_and_clears() {
    let src = "world { gravity=(0,0,0) entity e { state=(s0=0.0,s1=0.0) } } \
               systems { update { on = e; dt = 1.0 \
                 emit(7.0, 42.0) \
                 s0 = last_event(7.0) \
                 s1 = last_event(9.0) } }";
    let mut rt = started(src);
    rt.step_cross_n(1).unwrap();
    let st = rt.state(1);
    assert_eq!(st[0], 42.0, "kind 7 resolves to its payload");
    assert_eq!(st[1], 0.0, "unknown kind reads 0");
    assert_eq!(rt.lang.emitted_events().len(), 1, "one event this step");
    assert_eq!(
        rt.lang.emitted_events()[0].kind,
        7,
        "the kind is the value, not bits"
    );
    rt.step_cross_n(1).unwrap();
    assert_eq!(
        rt.lang.emitted_events().len(),
        1,
        "events are cleared per step (not accumulated)"
    );
}

/// A scheduled event comes up in the step in which it is due.
#[test]
fn a_scheduled_event_comes_up_when_it_is_due() {
    let src = "world { gravity=(0,0,0) entity e { state=(s0=0.0,s1=0.0) } } \
               systems { update { on = e; dt = 1.0 \
                 s0 = last_event(3.0) \
                 s1 = schedule(at(0.0), 2.0, 3.0, 8.0) } }";
    let mut rt = started(src);
    rt.step_cross_n(2).unwrap();
    assert_eq!(rt.lang.emitted_events().len(), 0);
    let queued = QueuedEvent { due: bits(2.0), kind: 3, payload: bits(8.0) };
    assert_eq!(rt.lang.env.queue, vec![queued]);
    rt.step_cross_n(1).unwrap();
    assert_eq!(rt.lang.emitted_events(), &vec![EmittedEvent { kind: 3, payload: bits(8.0) }]);
    assert!(rt.lang.env.queue.is_empty());
    assert_eq!(rt.state(1)[0], 8.0);
}

/// Printed values are kept until they are taken out, and starting over forgets them.
#[test]
fn printed_values_are_drained_and_forgotten() {
    let src = "world { gravity=(0,0,0) entity e { state=(x=0.0) } } \
               systems { update { on = e; dt = 1.0 x = print(x + 1.0) } }";
    let mut rt = started(src);
    rt.step_cross_n(2).unwrap();
    assert_eq!(rt.lang.drain_logs(), vec!["1".to_string(), "2".to_string()]);
    assert!(rt.lang.logs().is_empty());
    rt.step_cross_n(1).unwrap();
    assert_eq!(rt.lang.logs(), &vec!["4".to_string()]);
    let scene = parsed(src).unwrap().model.build_scene();
    rt.lang.reset_to(scene);
    assert!(rt.lang.logs().is_empty());
    assert_eq!(rt.lang.clock, 0);
    assert_eq!((rt.lang.scene.sim_time, rt.lang.next_env().step), (0, 0));
    rt.step_cross_n(1).unwrap();
    assert_eq!(rt.state(1)[0], 1.0);
}

/// `every = n` runs the system only when step % n == 0.
#[test]
fn every_runs_only_on_matching_steps() {
    let src = "world { gravity=(0,0,0) entity e { state=(x=0.0) } } \
               systems { update { on = e; dt = 1.0 every = 3 x = 0.0 + 1.0 } }";
    let mut rt = started(src);
    rt.step_cross_n(4).unwrap();
    let x = rt.state(1)[0];
    assert_eq!(x, 2.0, "steps 0 and 3 apply; 1 and 2 are skipped");
}

/// `watch` flags a strict sign change between consecutive steps; the flag
/// and the watch memory are ordinary state slots.
#[test]
fn watch_flags_zero_crossing() {
    let src = "world { gravity=(0,0,0) entity e { state=(x=-1.0,m=-1.0,f=0.0) } } \
               systems { update { on = e; dt = 0.1 x = 0.0 + 6.0 } \
               watch { on = e; expr = x; mem = 1; into = 2 } }";
    let mut rt = started(src);
    let flag = |rt: &Rt| {
        rt.state(1)[2]
    };
    rt.step_cross().unwrap();
    assert_eq!(flag(&rt), 0.0, "no crossing yet");
    rt.step_cross().unwrap();
    assert_eq!(flag(&rt), 1.0, "x crossed zero between the steps");
    rt.step_cross().unwrap();
    assert_eq!(flag(&rt), 0.0, "no further crossing");
}

/// `s[i]` dynamic indexing reads and writes the State slot at a runtime
/// index, shared by both backends (cross-checked via `step_cross`).
#[test]
fn dynamic_slot_index_reads_and_writes() {
    let src = "world { gravity=(0,0,0) entity e { state=(s0=10.0,s1=20.0,s2=0.0,s3=0.0) } } \
               systems { update { on = e; dt = 1.0 \
                 let i = 0.0 + 1.0 \
                 s[i] = 0.0 + 100.0 \
                 s2 = s[0.0 + 1.0] } }";
    let mut rt = started(src);
    rt.step_cross_n(1).unwrap();
    let st = rt.state(1);
    assert_eq!(st[1], 120.0, "s[1] += 1*100");
    assert_eq!(st[2], 20.0, "the read sees the pre-step state");
}

/// A dynamic slot LHS is rejected in `rk4`: its working states are
/// compile-time register chains, so a runtime-index LHS cannot feed them.
/// The `update` system supports dynamic LHS.
#[test]
fn dynamic_lhs_rejected_in_rk4() {
    let src = "world { gravity=(0,0,0) entity e { state=(s0=1.0) } } \
               systems { rk4 { on = e; dt = 0.1 s[0.0] = 0.0 + 1.0 } }";
    match try_compile(src) {
        Ok(_) => panic!("dynamic LHS in rk4 should be rejected"),
        Err(e) => assert_eq!(e.detail, 73),
    }
}

// ---- bodies ----------------------------------------------------------------------

fn body(scene: &mut Scene, id: u128, y: f64, vy: f64, dynamic: bool) {
    scene.entities.put(
        EntityId(id),
        BodyState {
            transform: Some(triple(0.0, y, 0.0)),
            velocity: Some(triple(0.0, vy, 0.0)),
            rigid_body: Some(RigidBody { mass: bits(1.0), is_dynamic: dynamic as u8 }),
            state: None,
            camera: false,
            active: true,
        },
    );
}

fn height(scene: &Scene, id: u128) -> f64 {
    f64::from_bits(scene.entities.get(&EntityId(id)).unwrap().transform.unwrap().y)
}

fn fall_speed(scene: &Scene, id: u128) -> f64 {
    f64::from_bits(scene.entities.get(&EntityId(id)).unwrap().velocity.unwrap().y)
}

/// The writes of one run of a module.
fn writes_of(module: &EirModule, scene: &Scene) -> Vec<WorldWrite> {
    run_module(module, scene, &ExecEnv::new()).unwrap().writes
}

#[test]
fn composed_program_gravity_integrate_damping_is_deterministic_and_valid() {
    // Compose gravity + integrate + damping and run against a scene.
    let fresh = || {
        let mut scene = Scene::new(triple(0.0, -9.81, 0.0));
        body(&mut scene, 1, 10.0, 0.0, true);
        body(&mut scene, 2, 20.0, 0.0, true);
        scene
    };
    let program = PhysicsProgram::build(
        vec![
            System::Gravity(GravitySystem { gravity_y: bits(-9.81), dt: bits(1.0 / 60.0) }),
            System::Integrate(IntegrateSystem { dt: bits(1.0 / 60.0) }),
            System::Damping(DampingSystem { factor: bits(0.995) }),
        ],
        vec![1, 2],
    );
    assert!(well_ended(&program.module) && dominates(&program.module));

    // Two identical runs must yield identical positions.
    let run = |scene: &mut Scene| -> f64 {
        let writes = writes_of(&program.module, scene);
        apply_writes(scene, &writes).unwrap();
        height(scene, 1)
    };
    let a = run(&mut fresh());
    let b = run(&mut fresh());
    assert_eq!(a, b);
    // Gravity acts: body 1 fell.
    assert!(a < 10.0, "body fell to {a}");
}

#[test]
fn composed_program_with_ground_contact_clamps_and_bounces() {
    // Gravity + integrate + ground contact: a body dropped from height with
    // restitution must land, not tunnel below y=0.
    let mut scene = Scene::new(triple(0.0, -9.81, 0.0));
    body(&mut scene, 1, 5.0, 0.0, true);
    let program = PhysicsProgram::build(
        vec![
            System::Gravity(GravitySystem { gravity_y: bits(-9.81), dt: bits(1.0 / 60.0) }),
            System::Integrate(IntegrateSystem { dt: bits(1.0 / 60.0) }),
            System::GroundContact(GroundContactSystem { restitution: bits(0.6) }),
        ],
        vec![1],
    );
    assert!(well_ended(&program.module) && dominates(&program.module));

    let mut min_y = f64::INFINITY;
    let mut bounced_above = false;
    let mut below = false;
    for _ in 0..240 {
        let writes = writes_of(&program.module, &scene);
        apply_writes(&mut scene, &writes).unwrap();
        let y = height(&scene, 1);
        min_y = min_y.min(y);
        // Once we've contacted the ground (pos dropped near 0) and later
        // rise above it, we observed a bounce.
        if y <= 1e-6 {
            below = true;
        }
        if below && y > 0.01 {
            bounced_above = true;
        }
    }
    // Must never go below the ground plane.
    assert!(min_y >= -1e-9, "body tunneled to {min_y}");
    // The body must have contacted the ground and then bounced above it.
    assert!(bounced_above, "expected a bounce, min_y={min_y}");
}

#[test]
fn eir_simulation_matches_analytic_free_fall() {
    // Semi-implicit Euler: v_{n+1} = v_n + g*dt; y_{n+1} = y_n + v_{n+1}*dt.
    // Closed form after n steps: y = y0 + v0*t + 0.5*g*t*t + 0.5*g*dt*t.
    let g = -9.81;
    let dt = 1.0 / 60.0;
    let mut scene = Scene::new(triple(0.0, g, 0.0));
    body(&mut scene, 1, 10.0, 2.0, true);
    let mut eir = EirSimulation::new(scene, bits(dt));

    let n = 120u64;
    for _ in 0..n {
        let writes = writes_of(&eir.lowered.module, &eir.scene);
        eir.finish_step(&writes).unwrap();
    }
    assert_eq!(eir.clock, n);
    let t = n as f64 * dt;
    let expected = 10.0 + 2.0 * t + 0.5 * g * t * t + 0.5 * g * dt * t;
    let actual = height(&eir.scene, 1);
    assert!((actual - expected).abs() < 1e-6, "eir={actual} expected={expected}");
}

#[test]
fn lower_and_run_gravity_integration() {
    let mut scene = Scene::new(triple(0.0, -9.81, 0.0));
    body(&mut scene, 1, 10.0, 0.0, true);
    let dt = 1.0 / 60.0;

    let lowered = lower_physics(&vec![1], scene.gravity.y, bits(dt));
    let writes = writes_of(&lowered.module, &scene);
    assert!(!writes.is_empty());

    // Apply writes: velocity.y should become -9.81*dt; position.y should drop by that.
    let vy0 = fall_speed(&scene, 1);
    let y0 = height(&scene, 1);
    apply_writes(&mut scene, &writes).unwrap();
    let vy1 = fall_speed(&scene, 1);
    let y1 = height(&scene, 1);
    let gravity_y = f64::from_bits(scene.gravity.y);
    assert!((vy1 - (vy0 + gravity_y * dt)).abs() < 1e-9);
    assert!((y1 - (y0 + vy1 * dt)).abs() < 1e-9);
}

/// A stand-in for a digest: enough to tell the modules of a test apart.
fn folded(bytes: &[u8]) -> Hash256 {
    let mut h = [0u8; 32];
    for (i, b) in bytes.iter().enumerate() {
        h[i % 32] = h[i % 32].wrapping_mul(31).wrapping_add(*b);
    }
    Hash256(h)
}

const VEHICLE: &str = "world { gravity = (0.0, -9.81, 0.0)
    entity vehicle { position = (0.0, 8.0, 0.0); dynamic = true; box = (1.0, 0.5, 0.7) }
    entity ground { position = (0.0, -5.0, 0.0); dynamic = false; box = (50.0, 5.0, 50.0) } }";

fn vehicle_program() -> PhysicsProgram {
    PhysicsProgram::build(
        vec![
            System::Gravity(GravitySystem { gravity_y: bits(-9.81), dt: bits(1.0 / 60.0) }),
            System::Integrate(IntegrateSystem { dt: bits(1.0 / 60.0) }),
            System::GroundContact(GroundContactSystem { restitution: bits(0.6) }),
        ],
        vec![1],
    )
}

#[test]
fn compile_load_run_mirrors_erlang_pipeline() {
    let model_hash = Hash256([5; 32]);
    let model = parsed(VEHICLE).unwrap().model;
    let program = vehicle_program();
    let identity = folded(&identity_bytes(&model_hash, &program.module));

    // Compile to a module.
    let module = compile_module("physics", model, program, identity);
    assert!(!module.eir.functions.is_empty());

    // Boot a VM and load the module with its world.
    let mut vm = PweRuntime::boot(Scene::new(triple(0.0, 0.0, 0.0)));
    let id = vm.load_with_world(module);

    // Step the module's systems and observe the world advance.
    for _ in 0..120 {
        let outcome = {
            let m = vm.module(&id).unwrap();
            run_module(&m.eir, &vm.scene, &ExecEnv::new()).unwrap()
        };
        vm.finish_step(&id, &outcome.writes, &outcome.overlays).unwrap();
    }
    let y = height(&vm.scene, 1);
    // The vehicle falls under gravity (and is kept on the ground).
    assert!(y < 8.0, "vehicle should fall, got y={y}");
    assert!(y >= 0.0, "vehicle should not tunnel, got y={y}");

    // Loading the identical module twice yields the same identity (dedup).
    let again = vehicle_program();
    let identity = folded(&identity_bytes(&model_hash, &again.module));
    let m2 = compile_module("physics", parsed(VEHICLE).unwrap().model, again, identity);
    assert!(m2.identity.same(&id));
    vm.load(m2);
    assert_eq!(vm.modules.len(), 1);
}

#[test]
fn an_unknown_module_is_not_run() {
    let mut vm = PweRuntime::boot(Scene::new(triple(0.0, 0.0, 0.0)));
    let nobody = Hash256([1; 32]);
    assert!(vm.module(&nobody).is_err());
    let none: ViewMap<Vec<u64>> = ViewMap::new();
    assert!(vm.finish_step(&nobody, &vec![], &none).is_err());
    let model = parsed(VEHICLE).unwrap().model;
    let id = vm.load(compile_module("m", model, vehicle_program(), nobody));
    assert!(vm.module(&id).is_ok());
    vm.unload(&id);
    assert!(vm.module(&id).is_err());
}
