//! Laws of the library on concrete values.

use pwe::api::{EntityId, RegionId};
use pwe::bodies::{GravitySystem, IntegrateSystem};
use pwe::chan::{ChanOp, ChanSystem};
use pwe::compile::{assign_ids, compile, CompiledProgram};
use pwe::decl::Triple;
use pwe::diagnostics::Diagnostics;
use pwe::eir::{
    Component, ComponentRef, EirModule, Immediate, Instruction, Opcode, Real, WorldWrite,
};
use pwe::expr::{ArithOp, Expr};
use pwe::imports::{
    module_file, module_stem, parse_import_line, strip_imports, ModuleFile,
};
use pwe::loader::Loader;
use pwe::merge::merge_sources;
use pwe::names::{NameMap, ViewMap};
use pwe::neighbors::{averaged, nearest, neighbor_count};
use pwe::numbers::{fractions, numerals, strip_trailing_comment, Numbers};
use pwe::program::{sort_ids, PhysicsProgram, System};
use pwe::rk4::Rk4System;
use pwe::rules::EirSystem;
use pwe::runtime::{
    agree, plain_steps, EmittedEvent, ExecEnv, LangRuntime, QueuedEvent, RunOutcome,
};
use pwe::scene::{apply_writes, BodyState, Grid, RigidBody, Scene, SceneRuntime};
use pwe::scope::{Layouts, Scope};
use pwe::table::Table;

fn bits(v: f64) -> u64 {
    v.to_bits()
}

fn all_bits(v: &[f64]) -> Vec<u64> {
    v.iter().map(|x| x.to_bits()).collect()
}

fn numbers(sources: &[&str]) -> Numbers {
    let value = |text: &String| -> u64 { text.parse::<f64>().unwrap().to_bits() };
    let mut texts: NameMap<u64> = NameMap::new();
    let mut ratios: Vec<(u64, u64, u64)> = Vec::new();
    for src in sources {
        for text in numerals(src) {
            let bits = value(&text);
            texts.insert(text, bits);
        }
        for (a, b) in fractions(src) {
            let (a, b) = (value(&a), value(&b));
            ratios.push((a, b, (f64::from_bits(a) / f64::from_bits(b)).to_bits()));
        }
    }
    Numbers { texts, ratios }
}

fn compiled(src: &str) -> CompiledProgram {
    match compile(&numbers(&[src]), src, &mut Diagnostics::new()) {
        Ok(c) => c,
        Err(e) => panic!("{} {}", e.detail, e.byte_offset),
    }
}

fn no_gravity() -> Triple {
    Triple { x: 0, y: 0, z: 0 }
}

fn stateful(values: &[f64]) -> BodyState {
    BodyState {
        transform: None,
        velocity: None,
        rigid_body: None,
        state: Some(all_bits(values)),
        camera: false,
        active: true,
    }
}

/// Whether every function ends, and sets each register once and before it is used.
fn in_order(m: &EirModule) -> bool {
    m.functions.iter().all(|f| {
        let mut free: u32 = f.argument_count + 1;
        let ordered = f.instructions.iter().all(|i| {
            let uses: &[u32] = match i.opcode {
                Opcode::Call => &i.operands[1..],
                Opcode::CondBr => &i.operands[..1],
                _ => &i.operands[..],
            };
            let known = uses.iter().all(|r| *r != 0 && *r < free);
            let numbered = match i.result_type {
                Some(_) => i.result_id == free,
                None => i.result_id == 0,
            };
            if i.result_type.is_some() {
                free += 1;
            }
            known && numbered
        });
        ordered && f.instructions.last().map(|i| i.opcode) == Some(Opcode::Return)
    })
}

#[test]
fn lowered_code_is_in_order() {
    let src = "world { gravity = (0, 0, 0)
        params { G = 2.0 }
        field heat { width = 4; height = 4 } field old { width = 4; height = 4 }
        chan wire { value = 0 }
        entity a { state = (x = 1.0, v = 0.0, w = 0.0) mass = 2 }
        entity b { state = (x = 2.0, v = 1.0, w = 0.0, 0, 0, 0, 1) position = (1, 2, 3) }
        pool p[3] { state = (x = 0.0) } }
      funcs { half(a) { let b = a * 0.5 return b } }
      systems {
        update { on = a; dt = 0.1; every = 3; substeps = 2; when = x > 0.5 and not (v == 1.0)
          let k = min(x, @b.state.x) + @b.mass
          repeat 4 { let k = k + 1.0 break if (k > 3.0) }
          for i in 0..3 { continue if (i == 1) let k = k - i }
          x = v * G + half(k) + noise() + fget(heat, 1, 2) + flap(heat, 1, 1)
          v = 0.0 - x + neighbor_count(2.0) + vlen(x, v, w) + pow(x, 2.0) }
        rk4 { on = b; dt = 0.1; when = x > 0.0 or v > 0.0 x = v v = 0.0 - x }
        invariant { on = a; expr = x < 1000.0 }
        watch { on = a; expr = x - 1.0; mem = 1; into = 2 }
        diffuse { field = heat; rate = 0.1 }
        wave { field = heat; prev = old; velocity = 1; dt = 0.1 }
        poisson { field = heat; iters = 3 }
        send { chan = wire; value = s0 * 2.0 }
        recv { chan = wire; slot = 1 }
        spawn { on = a; pool = p; count = 2; every = 4; phase = 1 }
        despawn { on = p; when = x > 3.0 }
        nbody { G = 1; dt = 0.1 }
        gravity { gravity_y = -9.81; dt = 1/60 }
        integrate { dt = 1/60 }
        damping { factor = 0.9 }
        ground_contact { restitution = 0.5 }
        force { ax = 1; ay = 0; az = 2; dt = 0.1 }
        wall { x = 5; z = 5; restitution = 0.5 }
        linear { slots = 2; dt = 0.1 row0 = (0, 1, 0) row1 = (1, 0, 0) }
      }";
    let c = compiled(src);
    assert!(in_order(&c.eir));
    // One function for every system and entity, then the declared ones.
    let entities = c.program.entities.len();
    assert_eq!(c.program.module.functions.len(), c.program.systems.len() * entities);
    assert_eq!(c.eir.functions.len(), c.program.module.functions.len() + 1);
    for (i, f) in c.program.module.functions.iter().enumerate() {
        assert_eq!(f.id, i as u64 + 1);
    }
}

/// Whether no function reads an entity once it has written one.
fn reads_first(m: &EirModule) -> bool {
    m.functions.iter().all(|f| {
        let sensed = |i: &Instruction| {
            let of_entity = match &i.target {
                Some(at) => matches!(
                    at.component,
                    Component::State
                        | Component::Transform
                        | Component::Velocity
                        | Component::RigidBody
                ),
                None => false,
            };
            i.opcode == Opcode::ReadSlotDyn || i.opcode == Opcode::ReadView && of_entity
        };
        let last = f.instructions.iter().rposition(sensed);
        let writes = |i: &Instruction| {
            i.opcode == Opcode::WriteView || i.opcode == Opcode::WriteSlotDyn
        };
        let first = f.instructions.iter().position(writes);
        match (last, first) {
            (Some(r), Some(w)) => r < w,
            _ => true,
        }
    })
}

#[test]
fn rules_read_before_they_write() {
    let world = "world { gravity = (0, 0, 0) params { G = 2.0 }
        entity a { state = (x = 1.0, v = 0.0) mass = 2 }
        entity b { state = (x = 2.0, v = 1.0) position = (1, 2, 3) } }";
    let rules = "x = @b.state.v * G + t v = @b.mass - x + @a.position.y";
    for kind in ["update", "rk4"] {
        let once = format!("{world} systems {{ {kind} {{ dt = 0.1; when = v < 9.0 {rules} }} }}");
        let c = compiled(&once);
        assert!(c.eir.functions[0].instructions.iter().any(|i| i.opcode == Opcode::WriteView));
        assert!(reads_first(&c.eir));
        // A second substep reads what the first has written.
        let twice = format!("{world} systems {{ {kind} {{ dt = 0.1; substeps = 2 {rules} }} }}");
        assert!(!reads_first(&compiled(&twice).eir));
    }
    // A slot whose index is computed is read with the others.
    let computed = "update { on = a; dt = 0.1 x = v + 1.0 v = s[x - 1.0] + 2.0 s[1] = s[0] + x }";
    assert!(reads_first(&compiled(&format!("{world} systems {{ {computed} }}")).eir));
    let rows = "linear { slots = 2; dt = 0.1 row0 = (0, 1, 0) row1 = (1, 0, 0) }";
    assert!(reads_first(&compiled(&format!("{world} systems {{ {rows} }}")).eir));
}

#[test]
fn a_release_runs_on_free_slots_too() {
    let src = "world { gravity = (0, 0, 0) entity a { state = (x = 1.0) } \
               pool p[2] { state = (x = 0.0) } } systems { despawn { on = p; when = x > 3.0 } }";
    match &compiled(src).program.systems[0] {
        System::Despawn(d) => {
            assert_eq!(d.pool_slots, vec![2, 3]);
            assert!(!d.guards_pool_slots());
        }
        _ => panic!("expected a release"),
    }
}

#[test]
fn verdicts_tell_their_invariant() {
    let src = "world { gravity = (0, 0, 0) entity a { state = (x = 1.0) } }
      systems { invariant { expr = x > 0.0 } gravity { gravity_y = 0; dt = 1 }
        invariant { expr = x < 5.0 } }";
    let c = compiled(src);
    let offsets: Vec<u32> = c
        .program
        .systems
        .iter()
        .filter_map(|s| match s {
            System::Invariant(i) => Some(i.check_offset),
            _ => None,
        })
        .collect();
    assert_eq!(offsets, vec![0, 8]);
    let scene = c.parsed.model.build_scene();
    let mut rt = LangRuntime::from_compiled(c, scene);
    let mut log = Diagnostics::new();
    let mut failed = outcome(2.0);
    failed.writes.push(WorldWrite {
        entity: 1,
        component: Component::Check,
        offset: 8,
        value: bits(1.0),
    });
    let e = rt.finish_step(failed, bits(1.0), &mut log).unwrap_err();
    assert_eq!(e.detail, 69);
    assert_eq!(log.entries[0].message, "invariant 'x < 5.0' violated for entity 1");
    assert_eq!(rt.scene.entities.get(&EntityId(1)).unwrap().state.as_ref().unwrap()[0], bits(1.0));
}

/// What a sender reads of another entity and what it computes have registers of their own.
#[test]
fn a_sender_of_foreign_state_is_in_order() {
    let src = "world { gravity = (0, 0, 0) chan wire { value = 0 }
        entity a { state = (x = 1.0) } entity b { state = (x = 2.0) } }
      systems { send { chan = wire; value = @b.state.x + 1.0 } }";
    let c = compiled(src);
    assert!(in_order(&c.eir));
    let ids: Vec<u32> = c.eir.functions[0]
        .instructions
        .iter()
        .filter(|i| i.result_type.is_some())
        .map(|i| i.result_id)
        .collect();
    assert_eq!(ids, (1..=ids.len() as u32).collect::<Vec<u32>>());
}

fn scope(entities: &[(&str, u128)]) -> Scope {
    let mut entity_map: NameMap<u128> = NameMap::new();
    for (name, id) in entities {
        entity_map.insert(name.to_string(), *id);
    }
    Scope {
        entity_map,
        state_names_by_id: Layouts::new(),
        func_ids: NameMap::new(),
        field_dims: NameMap::new(),
        namespace: String::new(),
        param_names: NameMap::new(),
    }
}

/// The registers that some code sets, in order.
fn set_registers(code: &[Instruction]) -> Vec<u32> {
    code.iter().filter(|i| i.result_type.is_some()).map(|i| i.result_id).collect()
}

/// Whether some code reads a state slot of an entity.
fn reads_slot(code: &[Instruction], entity: u128, slot: u32) -> Option<u32> {
    code.iter().find_map(|i| match &i.target {
        Some(at)
            if i.opcode == Opcode::ReadView
                && matches!(at.component, Component::State)
                && at.entity == entity
                && at.offset == slot * 8 =>
        {
            Some(i.result_id)
        }
        _ => None,
    })
}

#[test]
fn a_sent_sum_is_that_of_its_reads() {
    let sum = Expr::Arith(
        ArithOp::Add,
        Box::new(Expr::Ref("a".to_string(), 0)),
        Box::new(Expr::Const(bits(1.0))),
    );
    let system = ChanSystem {
        op: ChanOp::Send,
        channel_entity: 2,
        value: Some(sum),
        slot: 0,
        slots: 16,
        scope: scope(&[("a", 1)]),
        state_names: NameMap::new(),
    };
    let mut out: Vec<Instruction> = Vec::new();
    system.lower_entity(1, &mut out);
    let set = set_registers(&out);
    assert_eq!(set, (1..=set.len() as u32).collect::<Vec<u32>>());
    let writes: Vec<&Instruction> =
        out.iter().filter(|i| i.opcode == Opcode::WriteView).collect();
    assert_eq!(writes.len(), 1);
    assert_eq!(writes[0].target.as_ref().unwrap().entity, 2);
    let add = out.iter().find(|i| i.opcode == Opcode::Add).unwrap();
    assert_eq!(writes[0].operands, vec![add.result_id]);
    let one = out.iter().find(|i| i.opcode == Opcode::Const).unwrap();
    assert!(matches!(one.constant, Some(Immediate::F64(Real::Bits(b))) if b == bits(1.0)));
    assert_eq!(add.operands[1], one.result_id);
    let read = out.iter().find(|i| i.result_id == add.operands[0]).unwrap();
    let from = read.target.as_ref().unwrap();
    assert_eq!((from.entity, from.offset), (1, 0));
}

#[test]
fn stages_read_what_the_right_sides_read() {
    let system = Rk4System {
        rules: vec![("s0".to_string(), Expr::Slot(1))],
        lets: vec![],
        slots_hint: 0,
        dt: bits(1.0),
        every: None,
        when: None,
        substeps: 1,
        only: None,
        scope: scope(&[]),
    };
    let mut out: Vec<Instruction> = Vec::new();
    system.lower_entity(1, &mut out);
    assert!(reads_slot(&out, 1, 1).is_some());
    assert!(reads_slot(&out, 1, 0).is_some());
    let written: Vec<u32> = out
        .iter()
        .filter(|i| i.opcode == Opcode::WriteView)
        .map(|i| i.target.as_ref().unwrap().offset)
        .collect();
    assert_eq!(written, vec![0]);
    let set = set_registers(&out);
    assert_eq!(set, (1..=set.len() as u32).collect::<Vec<u32>>());
    assert!(out.iter().all(|i| i.opcode == Opcode::CondBr || i.operands.iter().all(|r| *r != 0)));
}

/// On a pool slot a function begins with a test of the activation flag; a release does not.
#[test]
fn free_slots_are_left_alone() {
    let src = "world { gravity = (0, 0, 0) entity a { state = (x = 1.0) } \
               pool p[1] { state = (x = 0.0) } } \
               systems { update { dt = 1.0 x = 0.0 + 1.0 } despawn { on = p; when = x > 3.0 } }";
    let c = compiled(src);
    assert!(in_order(&c.eir));
    let opens = |f: usize| -> bool {
        let code = &c.eir.functions[f].instructions;
        let flag = match &code[0].target {
            Some(at) => matches!(at.component, Component::Active) && at.entity == 2,
            None => false,
        };
        flag && code.len() > 4
            && code[2].opcode == Opcode::Eq
            && code[3].opcode == Opcode::CondBr
            && code[3].operands == vec![code[2].result_id, code.len() as u32 - 1, 4]
    };
    // The update of the entity and of the slot, then the release of both.
    assert_eq!(c.eir.functions.len(), 4);
    assert!(!opens(0) && opens(1) && !opens(2) && !opens(3));
    assert!(c.program.systems[0].guards_pool_slots());
    assert!(!c.program.systems[1].guards_pool_slots());
}

/// What is read of other entities is read once, and no entity has two layouts.
#[test]
fn foreign_slots_are_read_once() {
    let src = "world { gravity = (0, 0, 0) entity a { state = (x = 1.0) } entity n { mass = 1 } \
               entity b { state = (x = 2.0, y = 3.0) } pool p[2] { state = (z = 0.0) } } \
               systems { update { on = a; dt = 1.0 \
               x = @b.state.x + @b.state.y + @b.state.x + @b.mass + @b.mass } }";
    let c = compiled(src);
    let foreign: Vec<(bool, u32)> = c.eir.functions[0]
        .instructions
        .iter()
        .filter_map(|i| i.target.as_ref())
        .filter(|at| at.entity == 3)
        .map(|at| (matches!(at.component, Component::State), at.offset))
        .collect();
    assert_eq!(foreign.len(), 3);
    assert_eq!(foreign.iter().filter(|f| f.0).map(|f| f.1).collect::<Vec<u32>>(), vec![0, 8]);
    match &c.program.systems[0] {
        System::Update(u) => {
            let ids: Vec<u128> = u.scope.state_names_by_id.entries.iter().map(|e| e.0).collect();
            assert_eq!(ids, vec![1, 3, 4, 5]);
        }
        _ => panic!("expected an update"),
    }
}

#[test]
fn entity_order_is_immaterial() {
    assert_eq!(sort_ids(&vec![3, 1, 2, 1]), vec![1, 1, 2, 3]);
    let build = |ids: Vec<u128>| {
        PhysicsProgram::build(
            vec![
                System::Gravity(GravitySystem { gravity_y: bits(-9.81), dt: bits(0.1) }),
                System::Integrate(IntegrateSystem { dt: bits(0.1) }),
            ],
            ids,
        )
    };
    let targets = |p: PhysicsProgram| -> Vec<u128> {
        p.module
            .functions
            .iter()
            .map(|f| f.instructions.iter().find_map(|i| i.target.as_ref()).unwrap().entity)
            .collect()
    };
    assert_eq!(targets(build(vec![3, 1, 2])), vec![1, 2, 3, 1, 2, 3]);
    assert_eq!(targets(build(vec![3, 1, 2])), targets(build(vec![2, 3, 1])));
}

#[test]
fn names_have_ids_of_their_own() {
    let src = "world { entity a { state = (1) } entity b { state = (1) } chan c { value = 0 }
        pool p[2] { state = (x = 0.0) } pool q[1] { state = (x = 0.0) } }";
    let model = compiled(src).parsed.model;
    let ids = assign_ids(&model);
    let of = |name: &str| ids.get(name).copied();
    assert_eq!((of("a"), of("b"), of("c")), (Some(1), Some(2), Some(3)));
    assert_eq!((of("p#0"), of("p#1"), of("q#0")), (Some(4), Some(5), Some(6)));
    assert_eq!(of("nobody"), None);
}

/// Ids count from one over the entities, the channels and the slots of the pools.
#[test]
fn scenes_follow_the_declarations() {
    let src = "world { gravity = (0, -2, 0) params { k = 3.0 } \
               entity a { state = (x = 7.0) } \
               entity b { position = (1, 2, 3); dynamic = false } \
               chan wire { value = 5.0 } \
               pool p[2] { state = (9.0) } \
               field heat { width = 3 height = 2 } }";
    let model = compiled(src).parsed.model;
    let scene = model.build_scene();
    let ids: Vec<u128> = scene.entities.entries.iter().map(|e| e.0.0).collect();
    assert_eq!(ids, vec![1, 2, 3, 4, 5]);
    let named = assign_ids(&model);
    let of = |name: &str| {
        let id = EntityId(*named.get(name).unwrap());
        scene.entities.get(&id).unwrap()
    };
    let first = |name: &str| of(name).state.as_ref().unwrap()[0];
    assert_eq!((first("a"), first("wire")), (bits(7.0), bits(5.0)));
    assert_eq!((first("p#0"), first("p#1")), (bits(9.0), bits(9.0)));
    assert_eq!(of("a").state.as_ref().unwrap().len(), 16);
    assert!(of("a").active && of("wire").active && !of("p#1").active);
    assert_eq!(of("a").rigid_body, None);
    assert_eq!(of("b").state, None);
    assert_eq!(of("b").velocity, Some(Triple { x: 0, y: 0, z: 0 }));
    assert_eq!(of("b").rigid_body, Some(RigidBody { mass: bits(1.0), is_dynamic: 0 }));
    assert_eq!(scene.gravity.y, bits(-2.0));
    assert_eq!(scene.params.get("k"), Some(&bits(3.0)));
    let grid = scene.fields.get("heat").unwrap();
    assert_eq!((grid.width, grid.height, grid.depth), (3, 2, 1));
    assert_eq!(grid.cells, vec![0; 6]);
}

/// The components of a vector are consecutive slots, and the next name follows them.
#[test]
fn vector_components_are_consecutive_slots() {
    let src = "world { gravity = (0, 0, 0) entity e { state = (vec3 pos, mass = 1.0) } } \
               systems { update { on = e; dt = 1.0 mass = mass + pos + @self.state.pos.2 } }";
    let c = compiled(src);
    let e = &c.parsed.model.entities[0];
    let names: Vec<Option<&str>> =
        e.state_names.as_ref().unwrap().iter().map(|n| n.as_deref()).collect();
    assert_eq!(names, vec![Some("pos.0"), Some("pos.1"), Some("pos.2"), Some("mass")]);
    assert_eq!(e.state, Some(all_bits(&[0.0, 0.0, 0.0, 1.0])));
    let code = &c.eir.functions[0].instructions;
    let write = code.iter().find(|i| i.opcode == Opcode::WriteView).unwrap();
    assert_eq!(write.target.as_ref().unwrap().offset, 3 * 8);
    let sum = code.iter().find(|i| i.opcode == Opcode::Add).unwrap();
    let read = |r: u32| code.iter().find(|i| i.result_id == r).unwrap();
    let slots: Vec<u32> =
        sum.operands.iter().map(|r| read(*r).target.as_ref().unwrap().offset / 8).collect();
    assert_eq!(slots, vec![3, 0]);
}

#[test]
fn numerals_and_fractions_are_listed() {
    assert_eq!(numerals("a1 -2.5e3 1e"), vec!["1", "-2.5e3", "2.5e3", "5e3", "3", "1"]);
    assert_eq!(numerals("x"), Vec::<String>::new());
    assert_eq!(fractions("1 / 60"), vec![("1".to_string(), "60".to_string())]);
    assert_eq!(fractions("1 / x"), vec![]);
}

#[test]
fn neighbours_are_told_by_distance() {
    assert_eq!(nearest(&all_bits(&[3.0, 1.0, 1.0])), Some(1));
    assert_eq!(nearest(&all_bits(&[])), None);
    assert_eq!(nearest(&all_bits(&[f64::INFINITY])), None);
    assert_eq!(neighbor_count(&all_bits(&[3.0, 1.0, 2.0, f64::NAN]), bits(2.0)), 2);
    assert_eq!(averaged(&all_bits(&[3.0, 1.0, 2.0]), bits(2.0)), vec![1, 2]);
    assert_eq!(averaged(&all_bits(&[f64::NAN]), bits(2.0)), vec![0]);
}

#[test]
fn imports_are_taken_out_of_lines() {
    let (d, tail) = parse_import_line("  import \"std/forces\" as f }").unwrap();
    assert_eq!((d.path.as_str(), d.alias.as_deref()), ("std/forces", Some("f")));
    assert_eq!(tail, " }");
    let (d, _) = parse_import_line("from \"m\" import a, b").unwrap();
    assert_eq!(d.names, Some(vec!["a".to_string(), "b".to_string()]));
    assert!(parse_import_line("world { }").is_none());
    assert!(parse_import_line("import \"x\" as ").is_none());
    assert_eq!(module_stem("std/forces"), "forces");
    assert_eq!(module_stem("pkg/__init__"), "pkg");
    assert_eq!(module_stem("a/b.pwe"), "b");
}

#[test]
fn a_source_without_imports_is_kept() {
    let plain = "world { }\nsystems { }\n";
    assert_eq!(strip_imports(plain).0, plain);
    let (text, found) = strip_imports("import \"a\"\r\nworld { }");
    assert_eq!(text, "\nworld { }\n");
    assert_eq!(found.len(), 1);
}

#[test]
fn kept_sources_rebuild_the_program() {
    let main = "import \"m\"\nworld { gravity = (0, 0, 0) entity e { state = (x = 1.0) } }\n\
                systems { update { on = e; dt = 0.5 x = m.twice(x) + m.G } }\n";
    let m = "world { params { G = 3.0 } }\nfuncs { twice(v) { v * 2.0 } }\n";
    let table = numbers(&[main, m]);
    let mut loader = Loader::start("main.pwe");
    assert!(!loader.reach("main.pwe"));
    assert!(loader.supply(&table, "main.pwe", "main.pwe", "", main).is_none());
    assert_eq!(loader.next().unwrap().path, "m");
    assert!(!loader.reach("m.pwe"));
    assert!(loader.supply(&table, "m.pwe", "m.pwe", "", m).is_none());
    assert!(loader.next().is_none());
    let (program, sources) = loader.finish().unwrap();
    let again = merge_sources(&sources, &table).unwrap();
    let names = |p: &pwe::decl::ParsedProgram| -> Vec<String> {
        let funcs = p.funcs.iter().map(|f| f.name.clone());
        let params = p.model.params.entries.iter().map(|e| e.0.clone());
        funcs.chain(params).collect()
    };
    assert_eq!(names(&program), names(&again));
    assert_eq!(names(&program), vec!["m.twice", "m.G"]);
    assert_eq!(program.systems.len(), again.systems.len());
}

/// A module that imports the root back binds the root's names; the kept sources bind them
/// too.
#[test]
fn kept_sources_rebuild_a_circle() {
    let main = "import \"m\"\nworld { gravity = (0, 0, 0) params { G = 3.0 } \
                entity e { state = (x = 1.0) } }\n";
    let m = "import \"main\"\nworld { }\n\
             systems { update { on = e; dt = 0.5 x = main.G } }\n";
    let table = numbers(&[main, m]);
    let mut loader = Loader::start("main.pwe");
    assert!(loader.supply(&table, "main.pwe", "main.pwe", "", main).is_none());
    assert!(loader.supply(&table, "m.pwe", "m.pwe", "", m).is_none());
    assert_eq!(loader.next().unwrap().path, "main");
    assert!(loader.reach("main.pwe"));
    let (program, sources) = loader.finish().unwrap();
    assert_eq!(sources.root_aliases, vec!["", "main"]);
    let again = merge_sources(&sources, &table).unwrap();
    let params = |p: &pwe::decl::ParsedProgram| -> Vec<(String, u64)> {
        p.model.params.entries.iter().map(|e| (e.0.clone(), e.1)).collect()
    };
    assert_eq!(
        params(&program),
        vec![("G".to_string(), bits(3.0)), ("main.G".to_string(), bits(3.0))]
    );
    assert_eq!(params(&program), params(&again));
}

#[test]
fn an_import_means_one_file() {
    assert_eq!(module_file(true, false), ModuleFile::Package);
    assert_eq!(module_file(true, true), ModuleFile::Package);
    assert_eq!(module_file(false, true), ModuleFile::Named);
    assert_eq!(module_file(false, false), ModuleFile::Module);
}

#[test]
fn the_first_comment_ends_a_value() {
    assert_eq!(strip_trailing_comment("1 // a # b"), "1");
    assert_eq!(strip_trailing_comment("1 # a // b"), "1");
    assert_eq!(strip_trailing_comment(" 2.5 "), "2.5");
}

/// Cells are read back as other targets are, but for those outside of their field.
#[test]
fn written_cells_are_read_back() {
    let mut scene = Scene::new(no_gravity());
    let cells = all_bits(&[1.0, 2.0, 3.0, 4.0]);
    scene
        .fields
        .insert("f".to_string(), Grid { width: 2, height: 2, depth: 1, dx: bits(1.0), cells });
    let at = |name: &str, cell: u32| ComponentRef {
        entity: 0,
        component: Component::Field(name.to_string()),
        offset: cell * 8,
    };
    let mut rt = SceneRuntime::new(&scene);
    rt.write_field(at("f", 2), bits(9.0));
    assert_eq!(rt.read_field(&at("f", 2)).unwrap(), bits(9.0));
    assert_eq!(rt.read_field(&at("f", 1)).unwrap(), bits(2.0));
    rt.write_field(at("f", 4), bits(9.0));
    assert_eq!(rt.read_field(&at("f", 4)).unwrap_err().detail, 7);
    // A target of no entity and of no field is read back too.
    rt.write_field(state_ref(5, 0), bits(6.0));
    assert_eq!(rt.read_field(&state_ref(5, 0)).unwrap(), bits(6.0));
    rt.write_field(at("g", 3), bits(8.0));
    assert_eq!(rt.read_field(&at("g", 3)).unwrap(), bits(8.0));
    assert_eq!(rt.read_field(&at("f", 2)).unwrap(), bits(9.0));
    assert_eq!(scene.fields.get("f").unwrap().cells, all_bits(&[1.0, 2.0, 3.0, 4.0]));
}

#[test]
fn tables_keep_their_order() {
    let mut t: Table<EntityId, BodyState> = Table::new();
    t.put(EntityId(5), stateful(&[5.0]));
    t.put(EntityId(2), stateful(&[2.0]));
    t.put(EntityId(5), stateful(&[7.0]));
    let keys: Vec<u128> = t.entries.iter().map(|e| e.0 .0).collect();
    assert_eq!(keys, vec![2, 5]);
    assert_eq!(t.get(&EntityId(5)).unwrap().state, Some(all_bits(&[7.0])));
    assert_eq!(t.find(&EntityId(3)), None);
    assert!(t.has(&EntityId(2)));
    t.remove(&EntityId(2));
    assert!(!t.has(&EntityId(2)));
}

fn state_ref(entity: u128, slot: u32) -> ComponentRef {
    ComponentRef { entity, component: Component::State, offset: slot * 8 }
}

#[test]
fn writes_are_seen_and_kept() {
    let mut scene = Scene::new(no_gravity());
    scene.entities.put(EntityId(1), stateful(&[1.0, 2.0]));
    let mut rt = SceneRuntime::new(&scene);
    assert_eq!(rt.read_field(&state_ref(1, 1)).unwrap(), bits(2.0));
    rt.write_field(state_ref(1, 1), bits(9.0));
    assert_eq!(rt.read_field(&state_ref(1, 1)).unwrap(), bits(9.0));
    assert_eq!(rt.read_field(&state_ref(1, 0)).unwrap(), bits(1.0));
    assert_eq!(rt.read_field(&state_ref(1, 9)).unwrap(), 0);
    let writes = vec![WorldWrite {
        entity: 1,
        component: Component::State,
        offset: 8,
        value: bits(9.0),
    }];
    apply_writes(&mut scene, &writes).unwrap();
    let kept = scene.entities.get(&EntityId(1)).unwrap();
    assert_eq!(kept.state, Some(all_bits(&[1.0, 9.0])));
}

#[test]
fn a_stencil_holds_at_the_edge() {
    let mut scene = Scene::new(no_gravity());
    let cells = all_bits(&[1.0, 2.0, 3.0, 4.0]);
    scene
        .fields
        .insert("f".to_string(), Grid { width: 2, height: 2, depth: 1, dx: bits(1.0), cells });
    let rt = SceneRuntime::new(&scene);
    let s = rt.stencil("f", bits(0.0), bits(1.0)).unwrap();
    assert_eq!((s.center, s.left, s.right), (bits(3.0), bits(3.0), bits(4.0)));
    assert_eq!((s.up, s.down), (bits(1.0), bits(3.0)));
    assert!(rt.stencil("g", 0, 0).is_err());
    assert!(rt.stencil("f", bits(2.0), 0).is_err());
}

fn outcome(value: f64) -> RunOutcome {
    RunOutcome {
        writes: vec![WorldWrite {
            entity: 1,
            component: Component::State,
            offset: 0,
            value: bits(value),
        }],
        env: ExecEnv::new(),
        overlays: ViewMap::new(),
    }
}

fn running() -> LangRuntime {
    let src = "world { gravity = (0, 0, 0) entity e { state = (x = 1.0) } } \
               systems { update { on = e; dt = 0.5 x = x + 1.0 } }";
    let mut scene = Scene::new(no_gravity());
    scene.entities.put(EntityId(1), stateful(&[1.0]));
    LangRuntime::from_compiled_region(compiled(src), scene, RegionId(1))
}

#[test]
fn a_refused_step_changes_nothing() {
    let mut rt = running();
    let mut log = Diagnostics::new();
    assert!(!agree(&outcome(1.5), &outcome(1.25)));
    assert!(rt.finish_cross(outcome(1.5), &outcome(1.25), bits(0.5), &mut log).is_err());
    assert_eq!(rt.clock, 0);
    assert_eq!(rt.scene.sim_time, 0);
    assert_eq!(rt.scene.entities.get(&EntityId(1)).unwrap().state, Some(all_bits(&[1.0])));
}

#[test]
fn a_step_that_agrees_advances_the_clock() {
    let mut rt = running();
    let mut log = Diagnostics::new();
    rt.finish_cross(outcome(1.5), &outcome(1.5), bits(0.5), &mut log).unwrap();
    assert_eq!(rt.clock, 1);
    assert_eq!(rt.scene.sim_time, bits(0.5));
    assert_eq!(rt.scene.entities.get(&EntityId(1)).unwrap().state, Some(all_bits(&[1.5])));
    let writes = rt.finish_step(outcome(2.0), bits(1.0), &mut log).unwrap();
    assert_eq!(rt.clock, 2);
    assert_eq!(writes.len(), 1);
    assert_eq!((writes[0].entity, writes[0].offset, writes[0].value), (1, 0, bits(2.0)));
}

#[test]
fn backends_that_differ_in_events_disagree() {
    let mut other = outcome(1.5);
    other.env.log.push("1".to_string());
    assert!(agree(&outcome(1.5), &other));
    other.env.events.push(EmittedEvent { kind: 1, payload: 0 });
    assert!(!agree(&outcome(1.5), &other));
    other.env.events.clear();
    other.env.queue.push(QueuedEvent { due: 0, kind: 1, payload: 0 });
    assert!(!agree(&outcome(1.5), &other));
    let mut rt = running();
    let mut log = Diagnostics::new();
    let e = rt.finish_cross(outcome(1.5), &other, bits(0.5), &mut log).unwrap_err();
    assert_eq!(e.detail, 50);
    assert!(rt.env.queue.is_empty());
}

#[test]
fn buffers_of_wave_solvers_are_not_shown() {
    let src = "world { gravity = (0, 0, 0) entity e { state = (0) } \
               field u { width = 4 height = 4 } field old { width = 4 height = 4 } } \
               systems { wave { field = u; prev = old; velocity = 1.0; dt = 0.1 } }";
    let rt = LangRuntime::from_compiled(compiled(src), Scene::new(no_gravity()));
    assert!(rt.shows_field("u"));
    assert!(!rt.shows_field("old"));
    assert_eq!(rt.region, RegionId(1));
}

#[test]
fn all_but_the_last_step_of_a_batch_are_plain() {
    assert_eq!((plain_steps(0), plain_steps(1), plain_steps(8)), (0, 0, 7));
}
