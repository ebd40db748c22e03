//! Compiled modules and the machine that loads and runs them.

use crate::api::{error, spec_error, Error, Hash256, Status};
use crate::bytes::push_hash;
use crate::compile::copy_functions;
use crate::decl::{ModelView, WorldModel};
use crate::eir::{EirModule, EirModuleView, WorldWrite};
use crate::names::ViewMap;
use crate::program::PhysicsProgram;
use crate::runtime::{fields_after, flush_overlays};
use crate::scene::{apply_writes, scene_after, write_views, Scene, SceneView};
use crate::setup::built;
use vstd::prelude::*;
use vstd::string::*;

verus! {

/// The unit of compilation: a world and the functions that run on it.
pub struct PweModule {
    pub name: String,
    pub model: WorldModel,
    pub program: PhysicsProgram,
    pub eir: EirModule,
    /// The digest of [`identity_bytes`].
    pub identity: Hash256,
}

/// The mathematical value of a [`PweModule`].
pub struct PweView {
    pub name: Seq<char>,
    pub model: ModelView,
    pub module: EirModuleView,
    pub eir: EirModuleView,
    pub identity: Seq<u8>,
}

impl View for PweModule {
    type V = PweView;

    open spec fn view(&self) -> PweView {
        PweView {
            name: self.name@,
            model: self.model@,
            module: self.program.module@,
            eir: self.eir@,
            identity: self.identity@,
        }
    }
}

/// What the identity of a module is the digest of: the digest of its world, then those
/// of the domain program and of the module.
pub open spec fn identity_input(model_hash: Seq<u8>, eir: EirModuleView) -> Seq<u8> {
    model_hash + eir.domain_ir_hash + eir.module_hash
}

/// Lists the bytes whose digest is the identity of a module.
pub fn identity_bytes(model_hash: &Hash256, eir: &EirModule) -> (r: Vec<u8>)
    ensures
        r@ == identity_input(model_hash@, eir@),
{
    let mut out: Vec<u8> = Vec::new();
    push_hash(&mut out, model_hash);
    proof {
        assert(out@ =~= model_hash@);
    }
    push_hash(&mut out, &eir.domain_ir_hash);
    push_hash(&mut out, &eir.module_hash);
    out
}

/// Joins a world and a program to a module with the given identity.
pub fn compile_module(
    name: &str,
    model: WorldModel,
    program: PhysicsProgram,
    identity: Hash256,
) -> (r: PweModule)
    ensures
        r@ == (PweView {
            name: name@,
            model: model@,
            module: program.module@,
            eir: program.module@,
            identity: identity@,
        }),
        r.program == program,
{
    let eir = EirModule {
        module_hash: program.module.module_hash,
        schema_set_hash: program.module.schema_set_hash,
        domain_ir_hash: program.module.domain_ir_hash,
        target_kind: program.module.target_kind,
        functions: copy_functions(&program.module.functions),
    };
    PweModule { name: name.to_owned(), model, program, eir, identity }
}

/// The values of a list of modules.
pub open spec fn pwe_views(s: Seq<PweModule>) -> Seq<PweView> {
    s.map_values(|m: PweModule| m@)
}

/// The index of the module with an identity, or the length without one.
pub open spec fn module_place(s: Seq<PweView>, identity: Seq<u8>) -> nat
    decreases s.len(),
{
    if s.len() == 0 || s[0].identity == identity {
        0
    } else {
        1 + module_place(s.drop_first(), identity)
    }
}

/// The modules with one more; one of the same identity is replaced.
pub open spec fn with_module(s: Seq<PweView>, m: PweView) -> Seq<PweView> {
    if module_place(s, m.identity) < s.len() {
        s.update(module_place(s, m.identity) as int, m)
    } else {
        s.push(m)
    }
}

/// The modules without the one of an identity.
pub open spec fn without_module(s: Seq<PweView>, identity: Seq<u8>) -> Seq<PweView> {
    if module_place(s, identity) < s.len() {
        s.remove(module_place(s, identity) as int)
    } else {
        s
    }
}

/// The machine: the loaded modules and the scene that they run on.
pub struct PweRuntime {
    pub modules: Vec<PweModule>,
    pub scene: Scene,
}

/// The mathematical value of a [`PweRuntime`].
pub struct VmView {
    pub modules: Seq<PweView>,
    pub scene: SceneView,
}

impl View for PweRuntime {
    type V = VmView;

    open spec fn view(&self) -> VmView {
        VmView { modules: pwe_views(self.modules@), scene: self.scene@ }
    }
}

/// The machine after a step of a module, and the answer.
pub open spec fn ran(
    vm: VmView,
    identity: Seq<u8>,
    writes: Seq<crate::scene::WriteView>,
    overlays: Seq<(Seq<char>, Seq<u64>)>,
) -> (VmView, Result<(), Error>) {
    if module_place(vm.modules, identity) >= vm.modules.len() {
        (vm, Err(spec_error(Status::HandleStale, 1)))
    } else {
        let (scene, applied) = scene_after(vm.scene, writes);
        match applied {
            Err(e) => (VmView { scene, ..vm }, Err(e)),
            Ok(_) => (
                VmView {
                    scene: SceneView { fields: fields_after(scene.fields, overlays), ..scene },
                    ..vm
                },
                Ok(()),
            ),
        }
    }
}

impl PweRuntime {
    /// Boots a machine on a scene.
    pub fn boot(scene: Scene) -> (r: PweRuntime)
        ensures
            r@ == (VmView { modules: Seq::empty(), scene: scene@ }),
    {
        let r = PweRuntime { modules: Vec::new(), scene };
        proof {
            assert(r@.modules =~= Seq::<PweView>::empty());
        }
        r
    }

    fn find(&self, identity: &Hash256) -> (r: usize)
        ensures
            r == module_place(self@.modules, identity@),
            r <= self.modules@.len(),
    {
        let ghost views = self@.modules;
        let mut i: usize = 0;
        proof {
            assert(views.skip(0) =~= views);
        }
        while i < self.modules.len()
            invariant
                i <= self.modules.len(),
                views == pwe_views(self.modules@),
                module_place(views, identity@) == i + module_place(
                    views.skip(i as int),
                    identity@,
                ),
            decreases self.modules.len() - i,
        {
            proof {
                assert(views.skip(i as int)[0] == self.modules@[i as int]@);
                assert(views.skip(i as int).drop_first() =~= views.skip(i + 1));
            }
            if self.modules[i].identity.same(identity) {
                return i;
            }
            i = i + 1;
        }
        i
    }

    /// Loads a module and gives its identity.
    pub fn load(&mut self, module: PweModule) -> (r: Hash256)
        ensures
            r == module.identity,
            final(self)@ == (VmView {
                modules: with_module(old(self)@.modules, module@),
                ..old(self)@
            }),
    {
        let identity: Hash256 = module.identity;
        let at: usize = self.find(&identity);
        let ghost before = self@.modules;
        let ghost mv = module@;
        if at < self.modules.len() {
            self.modules.set(at, module);
            proof {
                assert(self@.modules =~= before.update(at as int, mv));
            }
        } else {
            self.modules.push(module);
            proof {
                assert(self@.modules =~= before.push(mv));
            }
        }
        identity
    }

    /// Loads a module, and sets up the scene that its world declares.
    pub fn load_with_world(&mut self, module: PweModule) -> (r: Hash256)
        ensures
            r == module.identity,
            final(self)@ == (VmView {
                modules: with_module(old(self)@.modules, module@),
                scene: built(module@.model),
            }),
    {
        self.scene = module.model.build_scene();
        self.load(module)
    }

    /// The module with an identity.
    pub fn module(&self, identity: &Hash256) -> (r: Result<&PweModule, Error>)
        ensures
            match r {
                Ok(m) => {
                    let at = module_place(self@.modules, identity@);
                    at < self@.modules.len() && m@ == self@.modules[at as int]
                },
                Err(e) => module_place(self@.modules, identity@) >= self@.modules.len() && e
                    == spec_error(Status::HandleStale, 1),
            },
    {
        let at: usize = self.find(identity);
        if at < self.modules.len() {
            Ok(&self.modules[at])
        } else {
            Err(error(Status::HandleStale, 1))
        }
    }

    /// Ends a step of a module with the outcome of its run.
    pub fn finish_step(
        &mut self,
        identity: &Hash256,
        writes: &Vec<WorldWrite>,
        overlays: &ViewMap<Vec<u64>>,
    ) -> (r: Result<(), Error>)
        ensures
            (final(self)@, r) == ran(old(self)@, identity@, write_views(writes@), overlays@),
    {
        if self.find(identity) >= self.modules.len() {
            return Err(error(Status::HandleStale, 1));
        }
        match apply_writes(&mut self.scene, writes) {
            Err(e) => return Err(e),
            Ok(_) => {},
        }
        flush_overlays(&mut self.scene, overlays);
        Ok(())
    }

    /// Removes a module.
    pub fn unload(&mut self, identity: &Hash256)
        ensures
            final(self)@ == (VmView {
                modules: without_module(old(self)@.modules, identity@),
                ..old(self)@
            }),
    {
        let at: usize = self.find(identity);
        if at < self.modules.len() {
            let ghost before = self@.modules;
            let _ = self.modules.remove(at);
            proof {
                assert(self@.modules =~= before.remove(at as int));
            }
        }
    }
}

/// A loaded module is found under its identity, whatever was loaded before.
pub proof fn law_loaded_module_is_found(s: Seq<PweView>, m: PweView)
    ensures
        ({
            let after = with_module(s, m);
            let at = module_place(after, m.identity);
            at < after.len() && after[at as int] == m
        }),
    decreases s.len(),
{
    reveal_with_fuel(module_place, 2);
    let after = with_module(s, m);
    if s.len() > 0 && s[0].identity != m.identity {
        let rest = s.drop_first();
        law_loaded_module_is_found(rest, m);
        lemma_module_place(rest, m.identity);
        assert(after.drop_first() =~= with_module(rest, m));
    }
}

proof fn lemma_module_place(s: Seq<PweView>, identity: Seq<u8>)
    ensures
        module_place(s, identity) <= s.len(),
    decreases s.len(),
{
    if s.len() > 0 && s[0].identity != identity {
        lemma_module_place(s.drop_first(), identity);
    }
}

/// Loading a module again leaves the machine as it is.
pub proof fn law_load_is_idempotent(s: Seq<PweView>, m: PweView)
    ensures
        with_module(with_module(s, m), m) == with_module(s, m),
{
    law_loaded_module_is_found(s, m);
    let once = with_module(s, m);
    assert(once.update(module_place(once, m.identity) as int, m) =~= once);
}

/// A step of a module that is not loaded is refused and changes nothing.
pub proof fn law_unknown_module_is_refused(
    vm: VmView,
    identity: Seq<u8>,
    writes: Seq<crate::scene::WriteView>,
    overlays: Seq<(Seq<char>, Seq<u64>)>,
)
    requires
        module_place(vm.modules, identity) >= vm.modules.len(),
    ensures
        ran(vm, identity, writes, overlays) == (
            vm,
            Err::<(), Error>(spec_error(Status::HandleStale, 1)),
        ),
{
}

} // verus!
