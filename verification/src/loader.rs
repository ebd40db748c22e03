//! The loading of a program that imports modules. Files are found and read outside;
//! the loader says which one comes next and keeps what was found.

use crate::decl::{copy_texts, text_views, ParsedProgram, ProgramView};
use crate::fault::{invalid_at, reject_at, Fault, FaultView};
use crate::imports::{
    bound_namespace, directive_views, module_stem, namespace_of, source_split, stem, strip_imports,
    DirectiveView, ImportDirective,
};
use crate::merge::{
    law_root_path_is_only_shown, merge_modules, merged, module_views, pair_views, sources_merged,
    stored_modules, stored_views, ModuleInfo, ModuleView, ProgramSources, SourcesView,
};
use crate::names::same;
use crate::numbers::{Numbers, NumbersView};
use crate::parse::{parse, program_of};
use crate::text::{dotted, joined, qualified};
use vstd::prelude::*;
use vstd::string::*;

verus! {

/// A file to find: an import path seen from a directory, the namespace that it binds,
/// and the import that asks for it (a module and an index into its imports). The
/// root is asked for by no import.
#[derive(Debug)]
pub struct Request {
    pub dir: String,
    pub path: String,
    pub ns: String,
    pub by: Option<(usize, usize)>,
}

/// The mathematical value of a [`Request`].
pub struct RequestView {
    pub dir: Seq<char>,
    pub path: Seq<char>,
    pub ns: Seq<char>,
    pub by: Option<(usize, usize)>,
}

impl View for Request {
    type V = RequestView;

    open spec fn view(&self) -> RequestView {
        RequestView { dir: self.dir@, path: self.path@, ns: self.ns@, by: self.by }
    }
}

/// The values of a list of requests.
pub open spec fn request_views(s: Seq<Request>) -> Seq<RequestView> {
    s.map_values(|r: Request| r@)
}

/// A module that was read.
pub struct LoadedModule {
    /// What tells the file from all others.
    pub key: String,
    pub ns: String,
    pub aliases: Vec<String>,
    pub path: String,
    /// The source without its imports.
    pub source: String,
    pub parsed: ParsedProgram,
    /// The imports, each with the module that it led to.
    pub imports: Vec<(ImportDirective, Option<usize>)>,
}

/// The mathematical value of a [`LoadedModule`].
pub struct LoadedView {
    pub key: Seq<char>,
    pub ns: Seq<char>,
    pub aliases: Seq<Seq<char>>,
    pub path: Seq<char>,
    pub source: Seq<char>,
    pub parsed: ProgramView,
    pub imports: Seq<(DirectiveView, Option<usize>)>,
}

/// The values of a list of imports.
pub open spec fn import_views(s: Seq<(ImportDirective, Option<usize>)>) -> Seq<
    (DirectiveView, Option<usize>),
> {
    s.map_values(|i: (ImportDirective, Option<usize>)| (i.0@, i.1))
}

impl View for LoadedModule {
    type V = LoadedView;

    open spec fn view(&self) -> LoadedView {
        LoadedView {
            key: self.key@,
            ns: self.ns@,
            aliases: text_views(self.aliases@),
            path: self.path@,
            source: self.source@,
            parsed: self.parsed@,
            imports: import_views(self.imports@),
        }
    }
}

/// The values of a list of modules.
pub open spec fn loaded_views(s: Seq<LoadedModule>) -> Seq<LoadedView> {
    s.map_values(|m: LoadedModule| m@)
}

/// The modules read so far, and what is still to be found, the next one last.
pub struct Loader {
    pub modules: Vec<LoadedModule>,
    pub pending: Vec<Request>,
}

/// The mathematical value of a [`Loader`].
pub struct LoaderView {
    pub modules: Seq<LoadedView>,
    pub pending: Seq<RequestView>,
}

impl View for Loader {
    type V = LoaderView;

    open spec fn view(&self) -> LoaderView {
        LoaderView {
            modules: loaded_views(self.modules@),
            pending: request_views(self.pending@),
        }
    }
}

/// The index of the module with a key, or the length without one.
pub open spec fn key_place(s: Seq<LoadedView>, key: Seq<char>) -> nat
    decreases s.len(),
{
    if s.len() == 0 || s[0].key == key {
        0
    } else {
        1 + key_place(s.drop_first(), key)
    }
}

/// The modules with an import linked to the module that it led to.
pub open spec fn linked(
    s: Seq<LoadedView>,
    by: Option<(usize, usize)>,
    to: usize,
) -> Seq<LoadedView> {
    match by {
        Some((m, i)) => if m < s.len() && i < s[m as int].imports.len() {
            let imports = s[m as int].imports.update(
                i as int,
                (s[m as int].imports[i as int].0, Some(to)),
            );
            s.update(m as int, LoadedView { imports, ..s[m as int] })
        } else {
            s
        },
        None => s,
    }
}

/// Names with one more, unless it is there.
pub open spec fn with_alias(aliases: Seq<Seq<char>>, ns: Seq<char>) -> Seq<Seq<char>> {
    if aliases.contains(ns) {
        aliases
    } else {
        aliases.push(ns)
    }
}

/// The loader after the next request has led to a module that is loaded: the module
/// has one more alias. None where the file is new.
pub open spec fn reached(l: LoaderView, key: Seq<char>) -> Option<LoaderView> {
    let at = key_place(l.modules, key);
    if at >= l.modules.len() {
        None
    } else {
        let request = l.pending.last();
        let m = l.modules[at as int];
        let modules = l.modules.update(
            at as int,
            LoadedView { aliases: with_alias(m.aliases, request.ns), ..m },
        );
        Some(
            LoaderView {
                modules: linked(modules, request.by, at as usize),
                pending: l.pending.drop_last(),
            },
        )
    }
}

/// The requests for the imports of a module, in reverse from the `k`-th last on, so
/// that the first import comes next.
pub open spec fn import_requests(
    imports: Seq<DirectiveView>,
    dir: Seq<char>,
    module: usize,
    k: nat,
) -> Seq<RequestView>
    decreases k,
{
    if k == 0 || k > imports.len() {
        Seq::empty()
    } else {
        let i = imports.len() - k;
        import_requests(imports, dir, module, (k - 1) as nat).push(
            RequestView {
                dir,
                path: imports[i].path,
                ns: bound_namespace(imports[i]),
                by: Some((module, i as usize)),
            },
        )
    }
}

/// The loader after the next request has led to a new file with the given text: the
/// module is added and its imports are asked for, or the text does not parse.
pub open spec fn supplied(
    l: LoaderView,
    n: NumbersView,
    key: Seq<char>,
    path: Seq<char>,
    dir: Seq<char>,
    raw: Seq<char>,
) -> Result<LoaderView, FaultView> {
    let (source, imports) = source_split(raw);
    match program_of(n, source) {
        Err(f) => Err(f),
        Ok(parsed) => {
            let request = l.pending.last();
            let at = l.modules.len() as usize;
            let m = LoadedView {
                key,
                ns: request.ns,
                aliases: seq![request.ns],
                path,
                source,
                parsed,
                imports: imports.map_values(|d: DirectiveView| (d, None::<usize>)),
            };
            Ok(
                LoaderView {
                    modules: linked(l.modules.push(m), request.by, at),
                    pending: l.pending.drop_last() + import_requests(
                        imports,
                        dir,
                        at,
                        imports.len(),
                    ),
                },
            )
        },
    }
}

/// The fault of a file that is not found.
pub open spec fn import_fault(path: Seq<char>, why: Seq<char>) -> FaultView {
    invalid_at(76, 0, "cannot import "@ + path + ": "@ + why)
}

/// Builds [`import_fault`].
pub fn cannot_import(path: &str, why: &str) -> (r: Fault)
    ensures
        r@ == import_fault(path@, why@),
{
    let mut message: String = joined("cannot import ", path);
    message.append(": ");
    message.append(why);
    reject_at(76, 0, message)
}

/// The fault of a file that cannot be read.
pub open spec fn read_fault(path: Seq<char>, why: Seq<char>) -> FaultView {
    invalid_at(76, 0, "cannot read "@ + path + ": "@ + why)
}

/// Builds [`read_fault`].
pub fn cannot_read(path: &str, why: &str) -> (r: Fault)
    ensures
        r@ == read_fault(path@, why@),
{
    let mut message: String = joined("cannot read ", path);
    message.append(": ");
    message.append(why);
    reject_at(76, 0, message)
}

fn has_alias(aliases: &Vec<String>, ns: &str) -> (r: bool)
    ensures
        r == text_views(aliases@).contains(ns@),
{
    let ghost views = text_views(aliases@);
    let mut i: usize = 0;
    while i < aliases.len()
        invariant
            i <= aliases.len(),
            views == text_views(aliases@),
            forall|k: int| 0 <= k < i ==> views[k] != ns@,
        decreases aliases.len() - i,
    {
        proof {
            assert(views[i as int] == aliases@[i as int]@);
        }
        if same(&aliases[i], ns) {
            return true;
        }
        i = i + 1;
    }
    false
}

impl Loader {
    /// A loader that asks for the root.
    pub fn start(path: &str) -> (r: Loader)
        ensures
            r@ == (LoaderView {
                modules: Seq::empty(),
                pending: seq![RequestView { dir: ""@, path: path@, ns: ""@, by: None }],
            }),
    {
        let root = Request {
            dir: "".to_owned(),
            path: path.to_owned(),
            ns: "".to_owned(),
            by: None,
        };
        let ghost rv = root@;
        let mut pending: Vec<Request> = Vec::new();
        pending.push(root);
        let r = Loader { modules: Vec::new(), pending };
        proof {
            assert(r@.modules =~= Seq::<LoadedView>::empty());
            assert(r@.pending =~= seq![rv]);
        }
        r
    }

    /// The file to find next; none when everything is loaded.
    pub fn next(&self) -> (r: Option<&Request>)
        ensures
            match r {
                Some(q) => self@.pending.len() > 0 && q@ == self@.pending.last(),
                None => self@.pending.len() == 0,
            },
    {
        if self.pending.len() == 0 {
            None
        } else {
            Some(&self.pending[self.pending.len() - 1])
        }
    }

    fn find(&self, key: &str) -> (r: usize)
        ensures
            r == key_place(self@.modules, key@),
            r <= self.modules@.len(),
    {
        let ghost views = self@.modules;
        let mut i: usize = 0;
        proof {
            assert(views.skip(0) =~= views);
        }
        while i < self.modules.len()
            invariant
                i <= self.modules.len(),
                views == loaded_views(self.modules@),
                key_place(views, key@) == i + key_place(views.skip(i as int), key@),
            decreases self.modules.len() - i,
        {
            proof {
                assert(views.skip(i as int)[0] == self.modules@[i as int]@);
                assert(views.skip(i as int).drop_first() =~= views.skip(i + 1));
            }
            if same(&self.modules[i].key, key) {
                return i;
            }
            i = i + 1;
        }
        i
    }

    fn link(&mut self, by: Option<(usize, usize)>, to: usize)
        ensures
            final(self)@ == (LoaderView {
                modules: linked(old(self)@.modules, by, to),
                ..old(self)@
            }),
    {
        if let Some((m, i)) = by {
            if m < self.modules.len() {
                proof {
                    assert(self@.modules[m as int] == self.modules@[m as int]@);
                }
                if i < self.modules[m].imports.len() {
                    let ghost before = self@.modules;
                    self.modules[m].imports[i].1 = Some(to);
                    proof {
                        let imports = before[m as int].imports.update(
                            i as int,
                            (before[m as int].imports[i as int].0, Some(to)),
                        );
                        assert(self.modules@[m as int]@.imports =~= imports);
                        assert(self@.modules =~= before.update(
                            m as int,
                            LoadedView { imports, ..before[m as int] },
                        ));
                    }
                }
            }
        }
    }

    /// Notes that the next request leads to the file with a key. Whether that module
    /// is loaded already; if not, its text is to be supplied.
    pub fn reach(&mut self, key: &str) -> (r: bool)
        requires
            old(self)@.pending.len() > 0,
        ensures
            match reached(old(self)@, key@) {
                Some(l) => r && final(self)@ == l,
                None => !r && final(self)@ == old(self)@,
            },
    {
        let at: usize = self.find(key);
        if at >= self.modules.len() {
            return false;
        }
        let ghost before = self@;
        let n: usize = self.pending.len();
        let ns: String = self.pending[n - 1].ns.clone();
        let by: Option<(usize, usize)> = self.pending[n - 1].by;
        proof {
            assert(before.pending.last() == self.pending@[n - 1]@);
            assert(before.modules[at as int] == self.modules@[at as int]@);
        }
        let _ = self.pending.pop();
        if !has_alias(&self.modules[at].aliases, &ns) {
            let ghost nv = ns@;
            self.modules[at].aliases.push(ns);
            proof {
                let m = before.modules[at as int];
                assert(self.modules@[at as int]@.aliases =~= m.aliases.push(nv));
                assert(self@.modules =~= before.modules.update(
                    at as int,
                    LoadedView { aliases: m.aliases.push(nv), ..m },
                ));
            }
        } else {
            proof {
                let m = before.modules[at as int];
                assert(self@.modules =~= before.modules.update(at as int, m));
            }
        }
        proof {
            assert(self@.pending =~= before.pending.drop_last());
        }
        self.link(by, at);
        true
    }

    /// Adds the module that the next request leads to. `path` is the path to show and
    /// `dir` the directory that its own imports are seen from.
    pub fn supply(
        &mut self,
        numbers: &Numbers,
        key: &str,
        path: &str,
        dir: &str,
        raw: &str,
    ) -> (r: Option<Fault>)
        requires
            old(self)@.pending.len() > 0,
        ensures
            match supplied(old(self)@, numbers@, key@, path@, dir@, raw@) {
                Ok(l) => r is None && final(self)@ == l,
                Err(f) => (r matches Some(e) && e@ == f) && final(self)@ == old(self)@,
            },
    {
        let (source, directives) = strip_imports(raw);
        let parsed: ParsedProgram = match parse(&source, numbers) {
            Ok(p) => p,
            Err(f) => return Some(f),
        };
        let ghost before = self@;
        let n: usize = self.pending.len();
        let ns: String = self.pending[n - 1].ns.clone();
        let by: Option<(usize, usize)> = self.pending[n - 1].by;
        proof {
            assert(before.pending.last() == self.pending@[n - 1]@);
        }
        let _ = self.pending.pop();
        proof {
            assert(self@.pending =~= before.pending.drop_last());
        }
        let at: usize = self.modules.len();
        push_requests(&mut self.pending, &directives, dir, at);
        let mut aliases: Vec<String> = Vec::new();
        aliases.push(ns.clone());
        let ghost dv = directive_views(directives@);
        let imports: Vec<(ImportDirective, Option<usize>)> = unlinked(directives);
        let m = LoadedModule {
            key: key.to_owned(),
            ns,
            aliases,
            path: path.to_owned(),
            source,
            parsed,
            imports,
        };
        proof {
            assert(m@.aliases =~= seq![before.pending.last().ns]);
        }
        let ghost mv = m@;
        self.modules.push(m);
        proof {
            assert(self@.modules =~= before.modules.push(mv));
        }
        self.link(by, at);
        None
    }
}

fn unlinked(list: Vec<ImportDirective>) -> (r: Vec<(ImportDirective, Option<usize>)>)
    ensures
        import_views(r@) == directive_views(list@).map_values(
            |d: DirectiveView| (d, None::<usize>),
        ),
{
    let ghost all = directive_views(list@);
    let mut rest: Vec<ImportDirective> = list;
    let mut out: Vec<(ImportDirective, Option<usize>)> = Vec::new();
    let ghost mut k: int = 0;
    while rest.len() > 0
        invariant
            0 <= k,
            k + rest.len() == all.len(),
            directive_views(rest@) == all.skip(k),
            import_views(out@).len() == k,
            forall|j: int|
                0 <= j < k ==> (#[trigger] import_views(out@)[j]) == (all[j], None::<usize>),
        decreases rest.len(),
    {
        let ghost views = directive_views(rest@);
        let ghost done = import_views(out@);
        let d: ImportDirective = rest.remove(0);
        let ghost dv = d@;
        proof {
            assert(views[0] == dv);
            assert(all[k] == dv);
            assert(directive_views(rest@) =~= views.drop_first());
            assert(views.drop_first() =~= all.skip(k + 1));
            k = k + 1;
        }
        out.push((d, None));
        proof {
            assert(import_views(out@) =~= done.push((dv, None::<usize>)));
        }
    }
    proof {
        assert(import_views(out@) =~= all.map_values(|d: DirectiveView| (d, None::<usize>)));
    }
    out
}

fn push_requests(pending: &mut Vec<Request>, list: &Vec<ImportDirective>, dir: &str, module: usize)
    ensures
        request_views(final(pending)@) == request_views(old(pending)@) + import_requests(
            directive_views(list@),
            dir@,
            module,
            list@.len(),
        ),
{
    let ghost start = request_views(pending@);
    let ghost views = directive_views(list@);
    let mut k: usize = 0;
    proof {
        assert(start + import_requests(views, dir@, module, 0) =~= start);
    }
    while k < list.len()
        invariant
            k <= list.len(),
            views == directive_views(list@),
            request_views(pending@) == start + import_requests(views, dir@, module, k as nat),
        decreases list.len() - k,
    {
        let ghost before = request_views(pending@);
        let i: usize = list.len() - 1 - k;
        proof {
            assert(views[i as int] == list@[i as int]@);
        }
        let q = Request {
            dir: dir.to_owned(),
            path: list[i].path.clone(),
            ns: namespace_of(&list[i]),
            by: Some((module, i)),
        };
        let ghost qv = q@;
        pending.push(q);
        proof {
            assert(request_views(pending@) =~= before.push(qv));
            assert(before.push(qv) =~= start + import_requests(
                views,
                dir@,
                module,
                (k + 1) as nat,
            ));
        }
        k = k + 1;
    }
}

/// Bare names with those of one import, whose module has the namespace `ns`.
pub open spec fn names_bound(
    bound: Seq<(Seq<char>, Seq<char>)>,
    names: Seq<Seq<char>>,
    ns: Seq<char>,
    k: nat,
) -> Seq<(Seq<char>, Seq<char>)>
    decreases k,
{
    if k == 0 || k > names.len() {
        bound
    } else {
        names_bound(bound, names, ns, (k - 1) as nat).push(
            (names[k - 1], qualified(ns, names[k - 1])),
        )
    }
}

/// The namespace of the module that an import led to, else the default one.
pub open spec fn import_space(modules: Seq<LoadedView>, i: (DirectiveView, Option<usize>)) -> Seq<
    char,
> {
    match i.1 {
        Some(m) => if m < modules.len() {
            modules[m as int].ns
        } else {
            stem(i.0.path)
        },
        None => stem(i.0.path),
    }
}

/// Bare names with those of the first `k` imports of a module.
pub open spec fn imports_bound(
    modules: Seq<LoadedView>,
    bound: Seq<(Seq<char>, Seq<char>)>,
    imports: Seq<(DirectiveView, Option<usize>)>,
    k: nat,
) -> Seq<(Seq<char>, Seq<char>)>
    decreases k,
{
    if k == 0 || k > imports.len() {
        bound
    } else {
        let before = imports_bound(modules, bound, imports, (k - 1) as nat);
        match imports[k - 1].0.names {
            Some(names) => names_bound(
                before,
                names,
                import_space(modules, imports[k - 1]),
                names.len(),
            ),
            None => before,
        }
    }
}

/// The bare names that the first `k` modules bind by `from` imports.
pub open spec fn bindings(modules: Seq<LoadedView>, k: nat) -> Seq<(Seq<char>, Seq<char>)>
    decreases k,
{
    if k == 0 || k > modules.len() {
        Seq::empty()
    } else {
        let imports = modules[k - 1].imports;
        imports_bound(modules, bindings(modules, (k - 1) as nat), imports, imports.len())
    }
}

fn bind_names(bound: &mut Vec<(String, String)>, names: &Vec<String>, ns: &str)
    ensures
        pair_views(final(bound)@) == names_bound(
            pair_views(old(bound)@),
            text_views(names@),
            ns@,
            names@.len(),
        ),
{
    let ghost start = pair_views(bound@);
    let ghost views = text_views(names@);
    let mut i: usize = 0;
    while i < names.len()
        invariant
            i <= names.len(),
            views == text_views(names@),
            pair_views(bound@) == names_bound(start, views, ns@, i as nat),
        decreases names.len() - i,
    {
        let ghost before = pair_views(bound@);
        proof {
            assert(views[i as int] == names@[i as int]@);
        }
        bound.push((names[i].clone(), dotted(ns, &names[i])));
        proof {
            assert(pair_views(bound@) =~= before.push(
                (views[i as int], qualified(ns@, views[i as int])),
            ));
        }
        i = i + 1;
    }
}

fn space_of(modules: &Vec<LoadedModule>, d: &ImportDirective, to: Option<usize>) -> (r: String)
    ensures
        r@ == import_space(loaded_views(modules@), (d@, to)),
{
    if let Some(m) = to {
        if m < modules.len() {
            proof {
                assert(loaded_views(modules@)[m as int].ns == modules@[m as int].ns@);
            }
            return modules[m].ns.clone();
        }
    }
    module_stem(&d.path)
}

fn bind_imports(
    modules: &Vec<LoadedModule>,
    bound: &mut Vec<(String, String)>,
    imports: &Vec<(ImportDirective, Option<usize>)>,
)
    ensures
        pair_views(final(bound)@) == imports_bound(
            loaded_views(modules@),
            pair_views(old(bound)@),
            import_views(imports@),
            imports@.len(),
        ),
{
    let ghost start = pair_views(bound@);
    let ghost views = import_views(imports@);
    let mut i: usize = 0;
    while i < imports.len()
        invariant
            i <= imports.len(),
            views == import_views(imports@),
            pair_views(bound@) == imports_bound(
                loaded_views(modules@),
                start,
                views,
                i as nat,
            ),
        decreases imports.len() - i,
    {
        let d: &ImportDirective = &imports[i].0;
        proof {
            assert(views[i as int] == (d@, imports@[i as int].1));
        }
        if let Some(names) = &d.names {
            let ns: String = space_of(modules, d, imports[i].1);
            bind_names(bound, names, &ns);
        }
        i = i + 1;
    }
}

/// The bare names that the loaded modules bind.
pub fn resolve_aliases(modules: &Vec<LoadedModule>) -> (r: Vec<(String, String)>)
    ensures
        pair_views(r@) == bindings(loaded_views(modules@), modules@.len()),
{
    let ghost views = loaded_views(modules@);
    let mut bound: Vec<(String, String)> = Vec::new();
    proof {
        assert(pair_views(bound@) =~= Seq::<(Seq<char>, Seq<char>)>::empty());
    }
    let mut i: usize = 0;
    while i < modules.len()
        invariant
            i <= modules.len(),
            views == loaded_views(modules@),
            pair_views(bound@) == bindings(views, i as nat),
        decreases modules.len() - i,
    {
        proof {
            assert(views[i as int] == modules@[i as int]@);
        }
        bind_imports(modules, &mut bound, &modules[i].imports);
        i = i + 1;
    }
    bound
}

/// The sources that a program can be built from without its files.
pub open spec fn sources_of(modules: Seq<LoadedView>) -> SourcesView {
    SourcesView {
        root: if modules.len() > 0 {
            modules[0].source
        } else {
            ""@
        },
        root_aliases: if modules.len() > 0 {
            modules[0].aliases
        } else {
            Seq::empty()
        },
        modules: if modules.len() > 0 {
            modules.drop_first().map_values(
                |m: LoadedView| (m.ns, m.path, m.source, m.aliases),
            )
        } else {
            Seq::empty()
        },
        aliases: bindings(modules, modules.len()),
    }
}

/// The modules as they are merged.
pub open spec fn merge_inputs(modules: Seq<LoadedView>) -> Seq<ModuleView> {
    modules.map_values(
        |m: LoadedView|
            ModuleView { ns: m.ns, aliases: m.aliases, path: m.path, parsed: m.parsed },
    )
}

fn export_sources(modules: &Vec<LoadedModule>, aliases: Vec<(String, String)>) -> (r: ProgramSources)
    requires
        pair_views(aliases@) == bindings(loaded_views(modules@), modules@.len()),
    ensures
        r@ == sources_of(loaded_views(modules@)),
{
    let ghost views = loaded_views(modules@);
    if modules.len() == 0 {
        let r = ProgramSources {
            root: "".to_owned(),
            root_aliases: Vec::new(),
            modules: Vec::new(),
            aliases,
        };
        proof {
            assert(r@.root_aliases =~= Seq::<Seq<char>>::empty());
            assert(r@.modules =~= sources_of(views).modules);
        }
        return r;
    }
    let mut stored: Vec<(String, String, String, Vec<String>)> = Vec::new();
    let ghost goal = sources_of(views).modules;
    let mut i: usize = 1;
    while i < modules.len()
        invariant
            1 <= i <= modules.len(),
            views == loaded_views(modules@),
            goal == views.drop_first().map_values(
                |m: LoadedView| (m.ns, m.path, m.source, m.aliases),
            ),
            stored@.len() == i - 1,
            forall|k: int| 0 <= k < i - 1 ==> (#[trigger] stored_views(stored@)[k]) == goal[k],
        decreases modules.len() - i,
    {
        let ghost before = stored_views(stored@);
        let m: &LoadedModule = &modules[i];
        proof {
            assert(views[i as int] == m@);
            assert(goal[i - 1] == (m.ns@, m.path@, m.source@, text_views(m.aliases@)));
        }
        stored.push((m.ns.clone(), m.path.clone(), m.source.clone(), copy_texts(&m.aliases)));
        proof {
            assert(stored_views(stored@) =~= before.push(goal[i - 1]));
        }
        i = i + 1;
    }
    proof {
        assert(views[0] == modules@[0]@);
        assert(stored_views(stored@) =~= goal);
    }
    ProgramSources {
        root: modules[0].source.clone(),
        root_aliases: copy_texts(&modules[0].aliases),
        modules: stored,
        aliases,
    }
}

fn take_modules(modules: Vec<LoadedModule>) -> (r: Vec<ModuleInfo>)
    ensures
        module_views(r@) == merge_inputs(loaded_views(modules@)),
{
    let ghost goal = merge_inputs(loaded_views(modules@));
    let ghost all = loaded_views(modules@);
    let mut rest: Vec<LoadedModule> = modules;
    let mut out: Vec<ModuleInfo> = Vec::new();
    let ghost mut k: int = 0;
    while rest.len() > 0
        invariant
            0 <= k,
            k + rest.len() == all.len(),
            goal == merge_inputs(all),
            loaded_views(rest@) == all.skip(k),
            module_views(out@).len() == k,
            forall|j: int| 0 <= j < k ==> (#[trigger] module_views(out@)[j]) == goal[j],
        decreases rest.len(),
    {
        let ghost views = loaded_views(rest@);
        let ghost done = module_views(out@);
        let m: LoadedModule = rest.remove(0);
        proof {
            assert(views[0] == m@);
            assert(all[k] == m@);
            assert(loaded_views(rest@) =~= views.drop_first());
            assert(views.drop_first() =~= all.skip(k + 1));
        }
        let info = ModuleInfo {
            ns: m.ns,
            aliases: m.aliases,
            path: m.path,
            parsed: m.parsed,
        };
        let ghost iv = info@;
        out.push(info);
        proof {
            assert(goal[k] == iv);
            assert(module_views(out@) =~= done.push(iv));
            k = k + 1;
        }
    }
    proof {
        assert(module_views(out@) =~= goal);
    }
    out
}

impl Loader {
    /// Merges what was loaded into one program, and gives the sources to keep.
    pub fn finish(self) -> (r: Result<(ParsedProgram, ProgramSources), Fault>)
        ensures
            match merged(
                merge_inputs(self@.modules),
                bindings(self@.modules, self@.modules.len()),
            ) {
                Ok(p) => r matches Ok(x) && x.0@ == p && x.1@ == sources_of(self@.modules),
                Err(f) => r matches Err(e) && e@ == f,
            },
    {
        let bound: Vec<(String, String)> = resolve_aliases(&self.modules);
        let kept: Vec<(String, String)> = resolve_aliases(&self.modules);
        let sources: ProgramSources = export_sources(&self.modules, kept);
        match merge_modules(take_modules(self.modules), &bound) {
            Ok(p) => Ok((p, sources)),
            Err(f) => Err(f),
        }
    }
}

/// No file is loaded twice: the keys of the modules stay distinct.
pub proof fn law_keys_stay_distinct(
    l: LoaderView,
    n: NumbersView,
    key: Seq<char>,
    path: Seq<char>,
    dir: Seq<char>,
    raw: Seq<char>,
)
    requires
        distinct_keys(l.modules),
        reached(l, key) is None,
        supplied(l, n, key, path, dir, raw) is Ok,
    ensures
        distinct_keys(supplied(l, n, key, path, dir, raw)->Ok_0.modules),
{
    let after = supplied(l, n, key, path, dir, raw)->Ok_0.modules;
    lemma_key_absent(l.modules, key);
    assert forall|i: int, j: int| 0 <= i < j < after.len() implies (#[trigger] after[i]).key != (
    #[trigger] after[j]).key by {
        if j < l.modules.len() {
            assert(after[i].key == l.modules[i].key && after[j].key == l.modules[j].key);
        } else {
            assert(after[i].key == l.modules[i].key);
        }
    }
}

/// Whether no two modules have one key.
pub open spec fn distinct_keys(s: Seq<LoadedView>) -> bool {
    forall|i: int, j: int|
        0 <= i < j < s.len() ==> (#[trigger] s[i]).key != (#[trigger] s[j]).key
}

proof fn lemma_key_absent(s: Seq<LoadedView>, key: Seq<char>)
    requires
        key_place(s, key) >= s.len(),
    ensures
        forall|i: int| 0 <= i < s.len() ==> (#[trigger] s[i]).key != key,
    decreases s.len(),
{
    if s.len() > 0 {
        lemma_key_absent(s.drop_first(), key);
        assert forall|i: int| 0 <= i < s.len() implies (#[trigger] s[i]).key != key by {
            if i > 0 {
                assert(s.drop_first()[i - 1] == s[i]);
            }
        }
    }
}

/// Whether every module is the parse of its source.
pub open spec fn parsed_from_sources(n: NumbersView, modules: Seq<LoadedView>) -> bool {
    forall|i: int|
        0 <= i < modules.len() ==> program_of(n, (#[trigger] modules[i]).source) == Ok::<
            ProgramView,
            FaultView,
        >(modules[i].parsed)
}

proof fn lemma_stored(
    n: NumbersView,
    done: Seq<ModuleView>,
    modules: Seq<LoadedView>,
    list: Seq<(Seq<char>, Seq<char>, Seq<char>, Seq<Seq<char>>)>,
)
    requires
        parsed_from_sources(n, modules),
        list == modules.map_values(|m: LoadedView| (m.ns, m.path, m.source, m.aliases)),
    ensures
        stored_modules(n, done, list) == Ok::<Seq<ModuleView>, FaultView>(
            done + merge_inputs(modules),
        ),
    decreases modules.len(),
{
    if modules.len() == 0 {
        assert(done + merge_inputs(modules) =~= done);
    } else {
        let m = modules[0];
        assert(program_of(n, m.source) == Ok::<ProgramView, FaultView>(m.parsed));
        let one = ModuleView { ns: m.ns, aliases: m.aliases, path: m.path, parsed: m.parsed };
        let rest = modules.drop_first();
        assert(list.drop_first() =~= rest.map_values(
            |m: LoadedView| (m.ns, m.path, m.source, m.aliases),
        ));
        assert forall|i: int| 0 <= i < rest.len() implies program_of(
            n,
            (#[trigger] rest[i]).source,
        ) == Ok::<ProgramView, FaultView>(rest[i].parsed) by {
            assert(rest[i] == modules[i + 1]);
        }
        lemma_stored(n, done.push(one), rest, list.drop_first());
        assert(done.push(one) + merge_inputs(rest) =~= done + merge_inputs(modules));
    }
}

/// The sources that are kept rebuild the program that was loaded.
pub proof fn law_sources_rebuild_the_program(n: NumbersView, modules: Seq<LoadedView>)
    requires
        modules.len() > 0,
        parsed_from_sources(n, modules),
        modules[0].ns == ""@,
        merged(merge_inputs(modules), bindings(modules, modules.len())) is Ok,
    ensures
        sources_merged(n, sources_of(modules)) == merged(
            merge_inputs(modules),
            bindings(modules, modules.len()),
        ),
{
    let src = sources_of(modules);
    let m = modules[0];
    assert(program_of(n, m.source) == Ok::<ProgramView, FaultView>(m.parsed));
    let root = ModuleView { ns: ""@, aliases: m.aliases, path: m.path, parsed: m.parsed };
    let stored = ModuleView { path: "<root>"@, ..root };
    let rest = modules.drop_first();
    assert forall|i: int| 0 <= i < rest.len() implies program_of(n, (#[trigger] rest[i]).source)
        == Ok::<ProgramView, FaultView>(rest[i].parsed) by {
        assert(rest[i] == modules[i + 1]);
    }
    lemma_stored(n, seq![stored], rest, src.modules);
    assert(merge_inputs(modules) =~= seq![root] + merge_inputs(rest));
    law_root_path_is_only_shown(root, "<root>"@, merge_inputs(rest), src.aliases);
}

/// Whether the root comes first and has no namespace, or is still the only file to find.
pub open spec fn rooted(l: LoaderView) -> bool {
    if l.modules.len() > 0 {
        l.modules[0].ns == ""@
    } else {
        l.pending.len() > 0 ==> l.pending.len() == 1 && l.pending[0].ns == ""@
    }
}

/// The root stays the first module, without a namespace, while modules are loaded.
pub proof fn law_root_stays_first(
    l: LoaderView,
    n: NumbersView,
    key: Seq<char>,
    path: Seq<char>,
    dir: Seq<char>,
    raw: Seq<char>,
)
    requires
        rooted(l),
        l.pending.len() > 0,
    ensures
        supplied(l, n, key, path, dir, raw) matches Ok(t) ==> rooted(t) && t.modules.len() > 0,
        reached(l, key) matches Some(t) ==> rooted(t) && t.modules.len() > 0,
{
}

/// Loading keeps every module the parse of its source.
pub proof fn law_modules_stay_parsed(
    l: LoaderView,
    n: NumbersView,
    key: Seq<char>,
    path: Seq<char>,
    dir: Seq<char>,
    raw: Seq<char>,
)
    requires
        parsed_from_sources(n, l.modules),
    ensures
        supplied(l, n, key, path, dir, raw) matches Ok(t) ==> parsed_from_sources(n, t.modules),
        reached(l, key) matches Some(t) ==> parsed_from_sources(n, t.modules),
{
}

} // verus!
