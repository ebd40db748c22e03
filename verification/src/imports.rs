//! Import directives, and sources without them.

use crate::decl::text_views;
use crate::fault::text_view;
use crate::names::{chars_of, same};
use crate::text::{
    find, find_char, joined, part, strip, strip_prefix, trim, trim_left, trim_start, trimmed,
};
use vstd::prelude::*;
use vstd::string::*;

verus! {

/// An import: `import "path"`, `import "path" as name`, or `from "path" import a, b`.
#[derive(Debug)]
pub struct ImportDirective {
    pub path: String,
    pub alias: Option<String>,
    /// The names to bind bare.
    pub names: Option<Vec<String>>,
}

/// The mathematical value of an [`ImportDirective`].
pub struct DirectiveView {
    pub path: Seq<char>,
    pub alias: Option<Seq<char>>,
    pub names: Option<Seq<Seq<char>>>,
}

impl View for ImportDirective {
    type V = DirectiveView;

    open spec fn view(&self) -> DirectiveView {
        DirectiveView {
            path: self.path@,
            alias: text_view(self.alias),
            names: match self.names {
                Some(v) => Some(text_views(v@)),
                None => None,
            },
        }
    }
}

/// Whether a character can be part of a name.
pub open spec fn is_word(c: char) -> bool {
    '0' <= c <= '9' || 'a' <= c <= 'z' || 'A' <= c <= 'Z' || c == '_'
}

fn word_char(c: char) -> (r: bool)
    ensures
        r == is_word(c),
{
    (c >= '0' && c <= '9') || (c >= 'a' && c <= 'z') || (c >= 'A' && c <= 'Z') || c == '_'
}

/// The number of name characters at the start of a text.
pub open spec fn word_run(s: Seq<char>) -> nat
    decreases s.len(),
{
    if s.len() > 0 && is_word(s[0]) {
        1 + word_run(s.drop_first())
    } else {
        0
    }
}

fn leading_word(text: &str) -> (r: usize)
    ensures
        r == word_run(text@),
        r <= text@.len(),
{
    let chars: Vec<char> = chars_of(text);
    let mut i: usize = 0;
    proof {
        assert(text@.skip(0) =~= text@);
    }
    while i < chars.len() && word_char(chars[i])
        invariant
            i <= chars.len(),
            chars@ == text@,
            word_run(text@) == i + word_run(text@.skip(i as int)),
        decreases chars.len() - i,
    {
        proof {
            assert(text@.skip(i as int).drop_first() =~= text@.skip(i + 1));
        }
        i = i + 1;
    }
    i
}

/// The names of a list with commas; none where one of them is no name.
pub open spec fn tokens(s: Seq<char>) -> Option<Seq<Seq<char>>>
    decreases s.len(),
{
    let comma = find(s, ',');
    let first = trimmed(s.take(comma as int));
    if first.len() == 0 || word_run(first) != first.len() {
        None
    } else if comma < s.len() {
        match tokens(s.skip(comma as int + 1)) {
            None => None,
            Some(rest) => Some(seq![first] + rest),
        }
    } else {
        Some(seq![first])
    }
}

/// Reads a list of names.
pub fn ident_tokens(text: &str) -> (r: Option<Vec<String>>)
    ensures
        tokens(text@) == (match r {
            Some(v) => Some(text_views(v@)),
            None => None,
        }),
    decreases text@.len(),
{
    let comma: usize = find_char(text, ',');
    let len: usize = text.unicode_len();
    let head: String = part(text, 0, comma);
    proof {
        assert(head@ =~= text@.take(comma as int));
    }
    let first: String = trim(&head);
    let size: usize = first.as_str().unicode_len();
    if size == 0 || leading_word(&first) != size {
        return None;
    }
    if comma < len {
        let tail: String = part(text, comma + 1, len);
        proof {
            assert(tail@ =~= text@.skip(comma as int + 1));
        }
        match ident_tokens(&tail) {
            None => None,
            Some(rest) => {
                let mut all: Vec<String> = rest;
                let ghost before = text_views(all@);
                let ghost f = first@;
                all.insert(0, first);
                proof {
                    assert(text_views(all@) =~= seq![f] + before);
                }
                Some(all)
            },
        }
    } else {
        let mut one: Vec<String> = Vec::new();
        let ghost f = first@;
        one.push(first);
        proof {
            assert(text_views(one@) =~= seq![f]);
        }
        Some(one)
    }
}

/// A quoted path at the start of a text, and what follows it.
pub open spec fn quoted_path(s: Seq<char>) -> Option<(Seq<char>, Seq<char>)> {
    let t = trim_left(s);
    if t.len() > 0 && t[0] == '"' {
        let rest = t.drop_first();
        let end = find(rest, '"');
        if end < rest.len() {
            Some((rest.take(end as int), rest.skip(end as int + 1)))
        } else {
            None
        }
    } else {
        None
    }
}

fn read_path(text: &str) -> (r: Option<(String, String)>)
    ensures
        quoted_path(text@) == (match r {
            Some((p, t)) => Some((p@, t@)),
            None => None,
        }),
{
    let t: String = trim_start(text);
    let len: usize = t.as_str().unicode_len();
    if !(len > 0 && t.as_str().get_char(0) == '"') {
        return None;
    }
    let rest: String = part(&t, 1, len);
    proof {
        assert(rest@ =~= t@.drop_first());
    }
    let end: usize = find_char(&rest, '"');
    let size: usize = rest.as_str().unicode_len();
    if end >= size {
        return None;
    }
    let path: String = part(&rest, 0, end);
    let tail: String = part(&rest, end + 1, size);
    proof {
        assert(path@ =~= rest@.take(end as int));
        assert(tail@ =~= rest@.skip(end as int + 1));
    }
    Some((path, tail))
}

/// An `import` directive behind its keyword, and the rest of its line.
pub open spec fn plain_import(s: Seq<char>) -> Option<(DirectiveView, Seq<char>)> {
    match quoted_path(s) {
        None => None,
        Some((path, tail)) => match strip(trim_left(tail), "as"@) {
            None => Some((DirectiveView { path, alias: None, names: None }, tail)),
            Some(a) => {
                let a = trim_left(a);
                let size = word_run(a);
                if size == 0 {
                    None
                } else {
                    Some(
                        (
                            DirectiveView {
                                path,
                                alias: Some(a.take(size as int)),
                                names: None,
                            },
                            a.skip(size as int),
                        ),
                    )
                }
            },
        },
    }
}

fn read_plain_import(text: &str) -> (r: Option<(ImportDirective, String)>)
    ensures
        plain_import(text@) == (match r {
            Some((d, t)) => Some((d@, t@)),
            None => None,
        }),
{
    let (path, tail): (String, String) = match read_path(text) {
        Some(v) => v,
        None => return None,
    };
    match strip_prefix(&trim_start(&tail), "as") {
        None => Some((ImportDirective { path, alias: None, names: None }, tail)),
        Some(rest) => {
            let a: String = trim_start(&rest);
            let size: usize = leading_word(&a);
            if size == 0 {
                return None;
            }
            let name: String = part(&a, 0, size);
            let after: String = part(&a, size, a.as_str().unicode_len());
            proof {
                assert(name@ =~= a@.take(size as int));
                assert(after@ =~= a@.skip(size as int));
            }
            Some((ImportDirective { path, alias: Some(name), names: None }, after))
        },
    }
}

/// The index of the first `;`, `}` or `#`, or the length without one.
pub open spec fn list_end(s: Seq<char>) -> nat
    decreases s.len(),
{
    if s.len() == 0 || s[0] == ';' || s[0] == '}' || s[0] == '#' {
        0
    } else {
        1 + list_end(s.drop_first())
    }
}

fn find_list_end(text: &str) -> (r: usize)
    ensures
        r == list_end(text@),
        r <= text@.len(),
{
    let chars: Vec<char> = chars_of(text);
    let mut i: usize = 0;
    proof {
        assert(text@.skip(0) =~= text@);
    }
    while i < chars.len() && !(chars[i] == ';' || chars[i] == '}' || chars[i] == '#')
        invariant
            i <= chars.len(),
            chars@ == text@,
            list_end(text@) == i + list_end(text@.skip(i as int)),
        decreases chars.len() - i,
    {
        proof {
            assert(text@.skip(i as int).drop_first() =~= text@.skip(i + 1));
        }
        i = i + 1;
    }
    i
}

/// A `from` directive behind its keyword, and the rest of its line.
pub open spec fn from_import(s: Seq<char>) -> Option<(DirectiveView, Seq<char>)> {
    match quoted_path(s) {
        None => None,
        Some((path, tail)) => match strip(trim_left(tail), "import"@) {
            None => None,
            Some(rest) => {
                let rest = trim_left(rest);
                let end = list_end(rest);
                match tokens(rest.take(end as int)) {
                    None => None,
                    Some(names) => Some(
                        (
                            DirectiveView { path, alias: None, names: Some(names) },
                            rest.skip(end as int),
                        ),
                    ),
                }
            },
        },
    }
}

fn read_from_import(text: &str) -> (r: Option<(ImportDirective, String)>)
    ensures
        from_import(text@) == (match r {
            Some((d, t)) => Some((d@, t@)),
            None => None,
        }),
{
    let (path, tail): (String, String) = match read_path(text) {
        Some(v) => v,
        None => return None,
    };
    let rest: String = match strip_prefix(&trim_start(&tail), "import") {
        Some(r) => trim_start(&r),
        None => return None,
    };
    let end: usize = find_list_end(&rest);
    let list: String = part(&rest, 0, end);
    let after: String = part(&rest, end, rest.as_str().unicode_len());
    proof {
        assert(list@ =~= rest@.take(end as int));
        assert(after@ =~= rest@.skip(end as int));
    }
    match ident_tokens(&list) {
        None => None,
        Some(names) => Some((ImportDirective { path, alias: None, names: Some(names) }, after)),
    }
}

/// The directive at the start of a line, and the rest of the line.
pub open spec fn import_of(line: Seq<char>) -> Option<(DirectiveView, Seq<char>)> {
    let t = trim_left(line);
    match strip(t, "import"@) {
        Some(rest) => plain_import(rest),
        None => match strip(t, "from"@) {
            Some(rest) => from_import(rest),
            None => None,
        },
    }
}

/// Reads an import directive at the start of a line. The rest of the line is kept, so
/// that a closing brace behind it stays.
pub fn parse_import_line(line: &str) -> (r: Option<(ImportDirective, String)>)
    ensures
        import_of(line@) == (match r {
            Some((d, t)) => Some((d@, t@)),
            None => None,
        }),
{
    let t: String = trim_start(line);
    match strip_prefix(&t, "import") {
        Some(rest) => read_plain_import(&rest),
        None => match strip_prefix(&t, "from") {
            Some(rest) => read_from_import(&rest),
            None => None,
        },
    }
}

/// The values of a list of directives.
pub open spec fn directive_views(s: Seq<ImportDirective>) -> Seq<DirectiveView> {
    s.map_values(|d: ImportDirective| d@)
}

/// A line without the carriage return in front of its line feed.
pub open spec fn bare_line(s: Seq<char>) -> Seq<char> {
    if s.len() > 0 && s.last() == '\r' {
        s.drop_last()
    } else {
        s
    }
}

/// One line of a source without its import, and the import.
pub open spec fn line_split(line: Seq<char>) -> (Seq<char>, Seq<DirectiveView>) {
    match import_of(line) {
        Some((d, tail)) => (tail + "\n"@, seq![d]),
        None => (line + "\n"@, Seq::empty()),
    }
}

/// A source without its imports, and the imports in order.
pub open spec fn source_split(s: Seq<char>) -> (Seq<char>, Seq<DirectiveView>)
    decreases s.len(),
{
    if s.len() == 0 {
        (Seq::empty(), Seq::empty())
    } else {
        let end = find(s, '\n');
        if end < s.len() {
            let (text, found) = line_split(bare_line(s.take(end as int)));
            let (rest, more) = source_split(s.skip(end as int + 1));
            (text + rest, found + more)
        } else {
            line_split(s)
        }
    }
}

fn add_line(line: &str, stripped: &mut String, imports: &mut Vec<ImportDirective>)
    ensures
        final(stripped)@ == old(stripped)@ + line_split(line@).0,
        directive_views(final(imports)@) == directive_views(old(imports)@) + line_split(line@).1,
{
    match parse_import_line(line) {
        Some((d, tail)) => {
            let ghost dv = d@;
            imports.push(d);
            stripped.append(&joined(&tail, "\n"));
            proof {
                assert(directive_views(imports@) =~= directive_views(old(imports)@) + seq![dv]);
            }
        },
        None => {
            stripped.append(&joined(line, "\n"));
            proof {
                assert(directive_views(imports@) =~= directive_views(old(imports)@)
                    + Seq::<DirectiveView>::empty());
            }
        },
    }
}

/// Takes the import directives out of a source.
pub fn strip_imports(raw: &str) -> (r: (String, Vec<ImportDirective>))
    ensures
        (r.0@, directive_views(r.1@)) == source_split(raw@),
{
    let mut stripped: String = "".to_owned();
    let mut imports: Vec<ImportDirective> = Vec::new();
    let mut rest: String = raw.to_owned();
    proof {
        reveal_strlit("");
        assert(stripped@ + source_split(raw@).0 =~= source_split(raw@).0);
        assert(directive_views(imports@) + source_split(raw@).1 =~= source_split(raw@).1);
    }
    while rest.as_str().unicode_len() > 0
        invariant
            stripped@ + source_split(rest@).0 == source_split(raw@).0,
            directive_views(imports@) + source_split(rest@).1 == source_split(raw@).1,
        decreases rest@.len(),
    {
        let ghost before = stripped@;
        let ghost seen = directive_views(imports@);
        let len: usize = rest.as_str().unicode_len();
        let end: usize = find_char(&rest, '\n');
        if end < len {
            let mut line: String = part(&rest, 0, end);
            proof {
                assert(line@ =~= rest@.take(end as int));
            }
            if end > 0 && rest.as_str().get_char(end - 1) == '\r' {
                line = part(&rest, 0, end - 1);
                proof {
                    assert(line@ =~= rest@.take(end as int).drop_last());
                }
            }
            let next: String = part(&rest, end + 1, len);
            proof {
                assert(line@ == bare_line(rest@.take(end as int)));
                assert(next@ =~= rest@.skip(end as int + 1));
            }
            add_line(&line, &mut stripped, &mut imports);
            proof {
                let (text, found) = line_split(line@);
                let (more_text, more) = source_split(next@);
                assert(before + (text + more_text) =~= stripped@ + more_text);
                assert(seen + (found + more) =~= directive_views(imports@) + more);
            }
            rest = next;
        } else {
            add_line(&rest, &mut stripped, &mut imports);
            let none: String = "".to_owned();
            proof {
                reveal_strlit("");
                assert(none@ =~= Seq::<char>::empty());
                assert(stripped@ + Seq::<char>::empty() =~= stripped@);
                assert(directive_views(imports@) + Seq::<DirectiveView>::empty()
                    =~= directive_views(imports@));
            }
            rest = none;
        }
    }
    proof {
        assert(rest@ =~= Seq::<char>::empty());
        assert(stripped@ + Seq::<char>::empty() =~= stripped@);
        assert(directive_views(imports@) + Seq::<DirectiveView>::empty() =~= directive_views(
            imports@,
        ));
    }
    (stripped, imports)
}

/// What follows the last slash of a text.
pub open spec fn last_segment(s: Seq<char>) -> Seq<char>
    decreases s.len(),
{
    let slash = find(s, '/');
    if slash < s.len() {
        last_segment(s.skip(slash as int + 1))
    } else {
        s
    }
}

/// What precedes the last slash of a text, if it has one.
pub open spec fn before_last(s: Seq<char>) -> Option<Seq<char>> {
    let last = last_segment(s);
    if last.len() < s.len() {
        Some(s.take(s.len() - last.len() - 1))
    } else {
        None
    }
}

/// A text without any `.pwe` at its end.
pub open spec fn no_extension(s: Seq<char>) -> Seq<char>
    decreases s.len(),
{
    if s.len() >= 4 && s.skip(s.len() - 4) == ".pwe"@ {
        no_extension(s.take(s.len() - 4))
    } else {
        s
    }
}

/// The default namespace of an import path: its last segment, or the one before it
/// for the file that stands for a package.
pub open spec fn stem(spec: Seq<char>) -> Seq<char> {
    let last = last_segment(spec);
    if last == "__init__"@ {
        match before_last(spec) {
            Some(head) => last_segment(head),
            None => spec,
        }
    } else {
        no_extension(last)
    }
}

pub proof fn lemma_last_segment(s: Seq<char>)
    ensures
        last_segment(s).len() <= s.len(),
    decreases s.len(),
{
    let slash = find(s, '/');
    if slash < s.len() {
        lemma_last_segment(s.skip(slash as int + 1));
    }
}

fn find_last_segment(text: &str) -> (r: String)
    ensures
        r@ == last_segment(text@),
    decreases text@.len(),
{
    let slash: usize = find_char(text, '/');
    let len: usize = text.unicode_len();
    if slash < len {
        let rest: String = part(text, slash + 1, len);
        proof {
            assert(rest@ =~= text@.skip(slash as int + 1));
        }
        find_last_segment(&rest)
    } else {
        text.to_owned()
    }
}

fn cut_extension(text: &str) -> (r: String)
    ensures
        r@ == no_extension(text@),
    decreases text@.len(),
{
    let len: usize = text.unicode_len();
    if len >= 4 {
        let tail: String = part(text, len - 4, len);
        proof {
            assert(tail@ =~= text@.skip(text@.len() - 4));
        }
        if same(&tail, ".pwe") {
            let head: String = part(text, 0, len - 4);
            proof {
                assert(head@ =~= text@.take(text@.len() - 4));
            }
            return cut_extension(&head);
        }
    }
    text.to_owned()
}

/// The default namespace of an import.
pub fn module_stem(spec: &str) -> (r: String)
    ensures
        r@ == stem(spec@),
{
    let last: String = find_last_segment(spec);
    if same(&last, "__init__") {
        let size: usize = last.as_str().unicode_len();
        let len: usize = spec.unicode_len();
        proof {
            lemma_last_segment(spec@);
        }
        if size < len {
            let head: String = part(spec, 0, len - size - 1);
            proof {
                assert(head@ =~= spec@.take(spec@.len() - last@.len() - 1));
            }
            find_last_segment(&head)
        } else {
            spec.to_owned()
        }
    } else {
        cut_extension(&last)
    }
}

/// The namespace that an import binds: its alias, or the default one.
pub open spec fn bound_namespace(d: DirectiveView) -> Seq<char> {
    match d.alias {
        Some(a) => a,
        None => stem(d.path),
    }
}

/// Computes [`bound_namespace`].
pub fn namespace_of(d: &ImportDirective) -> (r: String)
    ensures
        r@ == bound_namespace(d@),
{
    match &d.alias {
        Some(a) => a.clone(),
        None => module_stem(&d.path),
    }
}

proof fn lemma_found(s: Seq<char>, c: char)
    ensures
        s.contains(c) ==> find(s, c) < s.len() && s[find(s, c) as int] == c,
    decreases s.len(),
{
    if s.len() > 0 && s[0] != c {
        lemma_found(s.drop_first(), c);
        if s.contains(c) {
            let i = choose|i: int| 0 <= i < s.len() && s[i] == c;
            assert(s.drop_first()[i - 1] == c);
        }
    }
}

/// A source without imports, whose lines all end in a line feed alone, stays as it is.
pub proof fn law_source_without_imports_is_kept(s: Seq<char>)
    requires
        source_split(s).1.len() == 0,
        !s.contains('\r'),
        s.len() > 0 ==> s.last() == '\n',
    ensures
        source_split(s).0 == s,
    decreases s.len(),
{
    if s.len() > 0 {
        let end = find(s, '\n');
        assert(s.contains(s.last()));
        lemma_found(s, '\n');
        assert(end < s.len());
        let line = s.take(end as int);
        assert(bare_line(line) == line) by {
            if line.len() > 0 {
                assert(line.last() == s[end - 1]);
            }
        }
        let rest = s.skip(end as int + 1);
        let (text, found) = line_split(line);
        let (done, more) = source_split(rest);
        assert((found + more).len() == found.len() + more.len());
        assert(!rest.contains('\r')) by {
            if rest.contains('\r') {
                let i = choose|i: int| 0 <= i < rest.len() && rest[i] == '\r';
                assert(s[end + 1 + i] == '\r');
            }
        }
        law_source_without_imports_is_kept(rest);
        reveal_strlit("\n");
        assert(text + done =~= s);
    }
}

/// The file that an import path means.
#[derive(Clone, Copy, Debug, PartialEq, Eq, Structural)]
pub enum ModuleFile {
    /// The file `__init__.pwe` of a directory.
    Package,
    /// The path as it stands, which has an extension.
    Named,
    /// The path with the extension `pwe`.
    Module,
}

/// Decides which file an import path means: a directory is a package, whatever its name.
pub fn module_file(is_dir: bool, has_extension: bool) -> (r: ModuleFile)
    ensures
        r == (if is_dir {
            ModuleFile::Package
        } else if has_extension {
            ModuleFile::Named
        } else {
            ModuleFile::Module
        }),
{
    if is_dir {
        ModuleFile::Package
    } else if has_extension {
        ModuleFile::Named
    } else {
        ModuleFile::Module
    }
}

} // verus!
