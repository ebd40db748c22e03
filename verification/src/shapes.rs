//! Shapes for drawing, out of syntax trees.

use crate::decl::{face_views, part_views, PartView, ShapeDecl, ShapePart, Triple};
use crate::eir::ONE;
use crate::entity::{
    parse_triples, parse_value, parse_vec3, triple_of, triples_of, unquote, unquoted, value_of,
};
use crate::grammar::Rule;
use crate::names::same;
use crate::numbers::{Numbers, NumbersView};
use crate::peg::{lemma_children, trees, Node, Tree};
use crate::text::{decimal, find, find_char, parse_decimal, part, trim, trimmed};
use vstd::prelude::*;
use vstd::string::*;

verus! {

/// Whether a character is a square bracket.
pub open spec fn is_bracket(c: char) -> bool {
    c == '[' || c == ']'
}

/// A text without the brackets at its start.
pub open spec fn no_open(s: Seq<char>) -> Seq<char>
    decreases s.len(),
{
    if s.len() > 0 && is_bracket(s[0]) {
        no_open(s.drop_first())
    } else {
        s
    }
}

/// A text without the brackets at its end.
pub open spec fn no_close(s: Seq<char>) -> Seq<char>
    decreases s.len(),
{
    if s.len() > 0 && is_bracket(s.last()) {
        no_close(s.drop_last())
    } else {
        s
    }
}

fn strip_brackets(text: &str) -> (r: String)
    ensures
        r@ == no_close(no_open(text@)),
{
    let chars: Vec<char> = crate::names::chars_of(text);
    let mut i: usize = 0;
    proof {
        assert(text@.skip(0) =~= text@);
    }
    while i < chars.len() && (chars[i] == '[' || chars[i] == ']')
        invariant
            i <= chars.len(),
            chars@ == text@,
            no_open(text@) == no_open(text@.skip(i as int)),
        decreases chars.len() - i,
    {
        proof {
            assert(text@.skip(i as int).drop_first() =~= text@.skip(i + 1));
        }
        i = i + 1;
    }
    let mut n: usize = chars.len();
    proof {
        assert(text@.subrange(i as int, n as int) =~= text@.skip(i as int));
    }
    while n > i && (chars[n - 1] == '[' || chars[n - 1] == ']')
        invariant
            i <= n <= chars.len(),
            chars@ == text@,
            no_close(no_open(text@)) == no_close(text@.subrange(i as int, n as int)),
        decreases n,
    {
        proof {
            assert(text@.subrange(i as int, n as int).drop_last() =~= text@.subrange(
                i as int,
                n - 1,
            ));
        }
        n = n - 1;
    }
    part(text, i, n)
}

/// A corner index: decimal digits, with an optional plus sign.
pub open spec fn corner(text: Seq<char>) -> Option<u32> {
    let digits = if text.len() > 0 && text[0] == '+' {
        text.drop_first()
    } else {
        text
    };
    match decimal(digits) {
        Some(n) => if n <= u32::MAX {
            Some(n as u32)
        } else {
            None
        },
        None => None,
    }
}

fn parse_corner(text: &str) -> (r: Option<u32>)
    ensures
        r == corner(text@),
{
    let len: usize = text.unicode_len();
    let value: Option<usize> = if len > 0 && text.get_char(0) == '+' {
        let digits: String = part(text, 1, len);
        proof {
            assert(digits@ =~= text@.drop_first());
        }
        parse_decimal(&digits)
    } else {
        parse_decimal(text)
    };
    match value {
        Some(n) => {
            if n <= u32::MAX as usize {
                Some(n as u32)
            } else {
                None
            }
        },
        None => None,
    }
}

/// The corners listed in a text with commas; what is no index is left out.
pub open spec fn corners(s: Seq<char>) -> Seq<u32>
    decreases s.len(),
{
    let comma = find(s, ',');
    let first = match corner(trimmed(s.take(comma as int))) {
        Some(c) => seq![c],
        None => Seq::empty(),
    };
    if comma < s.len() {
        first + corners(s.skip(comma as int + 1))
    } else {
        first
    }
}

fn parse_corners(text: &str, out: &mut Vec<u32>)
    ensures
        final(out)@ == old(out)@ + corners(text@),
    decreases text@.len(),
{
    let comma: usize = find_char(text, ',');
    let len: usize = text.unicode_len();
    let head: String = part(text, 0, comma);
    proof {
        assert(head@ =~= text@.take(comma as int));
    }
    let ghost before = out@;
    match parse_corner(&trim(&head)) {
        Some(c) => {
            out.push(c);
        },
        None => {},
    }
    let ghost first = match corner(trimmed(text@.take(comma as int))) {
        Some(c) => seq![c],
        None => Seq::empty(),
    };
    proof {
        assert(out@ =~= before + first);
    }
    if comma < len {
        let rest: String = part(text, comma + 1, len);
        proof {
            assert(rest@ =~= text@.skip(comma as int + 1));
        }
        parse_corners(&rest, out);
        proof {
            assert(out@ =~= before + (first + corners(rest@)));
        }
    }
}

/// The faces of the first `k` nodes that have at least three corners.
pub open spec fn faces_of(kids: Seq<Tree>, k: nat) -> Seq<Seq<u32>>
    decreases k,
{
    if k == 0 || k > kids.len() {
        Seq::empty()
    } else {
        let face = corners(no_close(no_open(kids[k - 1].text)));
        if face.len() >= 3 {
            faces_of(kids, (k - 1) as nat).push(face)
        } else {
            faces_of(kids, (k - 1) as nat)
        }
    }
}

fn add_faces(kids: &Vec<Node>, faces: &mut Vec<Vec<u32>>)
    ensures
        face_views(final(faces)@) == face_views(old(faces)@) + faces_of(trees(kids@), kids@.len()),
{
    let ghost nodes = trees(kids@);
    let ghost before = face_views(faces@);
    let mut k: usize = 0;
    proof {
        assert(before + faces_of(nodes, 0) =~= before);
    }
    while k < kids.len()
        invariant
            k <= kids.len(),
            nodes == trees(kids@),
            face_views(faces@) == before + faces_of(nodes, k as nat),
        decreases kids.len() - k,
    {
        proof {
            assert(nodes[k as int] == kids@[k as int]@);
        }
        let mut face: Vec<u32> = Vec::new();
        parse_corners(&strip_brackets(&kids[k].text), &mut face);
        proof {
            assert(face@ =~= corners(no_close(no_open(nodes[k as int].text))));
        }
        if face.len() >= 3 {
            let ghost f = face@;
            let ghost old_faces = face_views(faces@);
            faces.push(face);
            proof {
                assert(face_views(faces@) =~= old_faces.push(f));
                assert(old_faces.push(f) =~= before + faces_of(nodes, k as nat).push(f));
            }
        }
        k = k + 1;
    }
}

/// The code of a kind of part; zero for an unknown one.
pub open spec fn part_kind(name: Seq<char>) -> u8 {
    if name == "sphere"@ {
        1
    } else if name == "box"@ {
        2
    } else if name == "capsule"@ {
        3
    } else if name == "svg"@ {
        4
    } else if name == "hull"@ {
        5
    } else if name == "poly"@ {
        6
    } else {
        0
    }
}

fn part_kind_of(name: &str) -> (r: u8)
    ensures
        r == part_kind(name@),
{
    if same(name, "sphere") {
        1
    } else if same(name, "box") {
        2
    } else if same(name, "capsule") {
        3
    } else if same(name, "svg") {
        4
    } else if same(name, "hull") {
        5
    } else if same(name, "poly") {
        6
    } else {
        0
    }
}

/// A part without options: its size, its drawing, or its points.
pub open spec fn bare_part(n: NumbersView, kind: u8, val: Tree) -> PartView {
    let p = PartView {
        kind,
        size: Triple { x: 0, y: 0, z: 0 },
        offset: Triple { x: 0, y: 0, z: 0 },
        path: None,
        points: Seq::empty(),
        faces: Seq::empty(),
        scale: ONE,
    };
    match val.rule {
        Rule::Quoted => PartView { path: Some(unquoted(val.text)), ..p },
        Rule::HullList => PartView { points: triples_of(n, val.children), ..p },
        Rule::Vec3 => PartView { size: triple_of(n, val), ..p },
        _ => {
            let x = value_of(n, val);
            PartView { size: Triple { x, y: x, z: x }, ..p }
        },
    }
}

fn build_bare_part(numbers: &Numbers, kind: u8, val: &Node) -> (r: ShapePart)
    ensures
        r@ == bare_part(numbers@, kind, val@),
{
    let mut p: ShapePart = ShapePart {
        kind,
        size: Triple { x: 0, y: 0, z: 0 },
        offset: Triple { x: 0, y: 0, z: 0 },
        path: None,
        points: Vec::new(),
        faces: Vec::new(),
        scale: ONE,
    };
    proof {
        lemma_children(*val);
        assert(face_views(p.faces@) =~= Seq::<Seq<u32>>::empty());
    }
    match val.rule {
        Rule::Quoted => {
            p.path = Some(unquote(&val.text));
        },
        Rule::HullList => {
            p.points = parse_triples(numbers, &val.children);
        },
        Rule::Vec3 => {
            p.size = parse_vec3(numbers, val);
        },
        _ => {
            let x: u64 = parse_value(numbers, val);
            p.size = Triple { x, y: x, z: x };
        },
    }
    p
}

/// A part with one more option.
pub open spec fn with_option(n: NumbersView, opt: Tree, p: PartView) -> PartView {
    if opt.children.len() == 0 {
        p
    } else {
        let inner = opt.children[0];
        match opt.rule {
            Rule::AtOpt => PartView { offset: triple_of(n, inner), ..p },
            Rule::DepthOpt => PartView { size: Triple { x: value_of(n, inner), ..p.size }, ..p },
            Rule::ScaleOpt => PartView { scale: value_of(n, inner), ..p },
            Rule::FacesOpt => PartView {
                faces: p.faces + faces_of(inner.children, inner.children.len()),
                ..p
            },
            _ => p,
        }
    }
}

fn apply_option(numbers: &Numbers, opt: &Node, p: &mut ShapePart)
    ensures
        final(p)@ == with_option(numbers@, opt@, old(p)@),
{
    proof {
        lemma_children(*opt);
    }
    if opt.children.len() == 0 {
        return ;
    }
    let inner: &Node = &opt.children[0];
    proof {
        assert(opt@.children[0] == inner@);
        lemma_children(*inner);
    }
    match opt.rule {
        Rule::AtOpt => {
            p.offset = parse_vec3(numbers, inner);
        },
        Rule::DepthOpt => {
            p.size = Triple { x: parse_value(numbers, inner), y: p.size.y, z: p.size.z };
        },
        Rule::ScaleOpt => {
            p.scale = parse_value(numbers, inner);
        },
        Rule::FacesOpt => {
            add_faces(&inner.children, &mut p.faces);
        },
        _ => {},
    }
}

/// A part with the options of the nodes from the third up to the `k`-th.
pub open spec fn with_options(n: NumbersView, kids: Seq<Tree>, k: nat, p: PartView) -> PartView
    decreases k,
{
    if k <= 2 || k > kids.len() {
        p
    } else {
        with_option(n, kids[k - 1], with_options(n, kids, (k - 1) as nat, p))
    }
}

/// The part of a node; an unknown kind gives none.
pub open spec fn part_of(n: NumbersView, t: Tree) -> Option<PartView> {
    let kids = t.children;
    if kids.len() < 2 || part_kind(kids[0].text) == 0 {
        None
    } else {
        Some(with_options(n, kids, kids.len(), bare_part(n, part_kind(kids[0].text), kids[1])))
    }
}

fn build_part(numbers: &Numbers, node: &Node) -> (r: Option<ShapePart>)
    ensures
        part_of(numbers@, node@) == (match r {
            Some(p) => Some(p@),
            None => None,
        }),
{
    let kids: &Vec<Node> = &node.children;
    proof {
        lemma_children(*node);
    }
    if kids.len() < 2 {
        return None;
    }
    proof {
        assert(node@.children[0] == kids@[0]@);
        assert(node@.children[1] == kids@[1]@);
    }
    let kind: u8 = part_kind_of(&kids[0].text);
    if kind == 0 {
        return None;
    }
    let mut p: ShapePart = build_bare_part(numbers, kind, &kids[1]);
    let ghost first = p@;
    let mut k: usize = 2;
    while k < kids.len()
        invariant
            2 <= k <= kids.len(),
            *kids == node.children,
            node@.children == trees(kids@),
            p@ == with_options(numbers@, node@.children, k as nat, first),
        decreases kids.len() - k,
    {
        proof {
            assert(node@.children[k as int] == kids@[k as int]@);
        }
        apply_option(numbers, &kids[k], &mut p);
        k = k + 1;
    }
    Some(p)
}

/// The parts of the nodes from the second up to the `k`-th.
pub open spec fn parts_of(n: NumbersView, kids: Seq<Tree>, k: nat) -> Seq<PartView>
    decreases k,
{
    if k <= 1 || k > kids.len() {
        Seq::empty()
    } else {
        match part_of(n, kids[k - 1]) {
            Some(p) => parts_of(n, kids, (k - 1) as nat).push(p),
            None => parts_of(n, kids, (k - 1) as nat),
        }
    }
}

/// Builds the parts of a shape declaration, behind its name.
pub fn build_shape(numbers: &Numbers, kids: &Vec<Node>) -> (r: ShapeDecl)
    ensures
        r@ == parts_of(numbers@, trees(kids@), kids@.len()),
{
    let ghost nodes = trees(kids@);
    let mut parts: Vec<ShapePart> = Vec::new();
    proof {
        assert(part_views(parts@) =~= Seq::<PartView>::empty());
    }
    let mut k: usize = 1;
    while k < kids.len()
        invariant
            1 <= k,
            k <= kids.len() || kids.len() == 0,
            nodes == trees(kids@),
            part_views(parts@) == parts_of(numbers@, nodes, k as nat),
        decreases kids.len() - k,
    {
        proof {
            assert(nodes[k as int] == kids@[k as int]@);
        }
        match build_part(numbers, &kids[k]) {
            Some(p) => {
                let ghost before = part_views(parts@);
                parts.push(p);
                proof {
                    assert(part_views(parts@) =~= before.push(p@));
                }
            },
            None => {},
        }
        k = k + 1;
    }
    ShapeDecl { parts }
}

} // verus!
