//! Parsing expressions over characters, and the syntax trees that they yield.

use crate::grammar::{body, rule_body, shape, shape_of, Rule, Shape};
use crate::text::part;
use vstd::prelude::*;

verus! {

/// A parsing expression.
pub enum Peg {
    /// A fixed text.
    Lit(&'static str),
    /// One character from a range.
    Range(char, char),
    /// Any one character.
    Any,
    /// The end of the input.
    End,
    /// One after the other, with blanks allowed in between.
    Cat(Box<Peg>, Box<Peg>),
    /// One directly after the other.
    Glue(Box<Peg>, Box<Peg>),
    /// The first alternative that matches.
    Alt(Box<Peg>, Box<Peg>),
    /// Once or not at all.
    Opt(Box<Peg>),
    /// As often as possible, with blanks allowed in between.
    Many(Box<Peg>),
    /// As often as possible, without blanks.
    Run(Box<Peg>),
    /// Matches nothing, where the inner expression does not match.
    Not(Box<Peg>),
    /// A rule of the grammar.
    Use(Rule),
}

/// A node of a syntax tree: the rule, the text that it matched, and where that text
/// starts, counted in characters.
#[derive(Debug)]
pub struct Node {
    pub rule: Rule,
    pub text: String,
    pub start: usize,
    pub children: Vec<Node>,
}

/// The mathematical value of a [`Node`].
pub struct Tree {
    pub rule: Rule,
    pub text: Seq<char>,
    pub start: nat,
    pub children: Seq<Tree>,
}

impl Node {
    /// The mathematical value.
    pub open spec fn model(&self) -> Tree
        decreases self,
    {
        Tree {
            rule: self.rule,
            text: self.text@,
            start: self.start as nat,
            children: Seq::new(
                self.children@.len(),
                |i: int|
                    if 0 <= i < self.children@.len() {
                        self.children@[i].model()
                    } else {
                        Tree {
                            rule: self.rule,
                            text: Seq::empty(),
                            start: 0,
                            children: Seq::empty(),
                        }
                    },
            ),
        }
    }
}

impl View for Node {
    type V = Tree;

    open spec fn view(&self) -> Tree {
        self.model()
    }
}

/// The values of a sequence of nodes.
pub open spec fn trees(s: Seq<Node>) -> Seq<Tree> {
    s.map_values(|n: Node| n@)
}

/// The value of a node is made of the values of its children.
pub proof fn lemma_children(n: Node)
    ensures
        n@.children == trees(n.children@),
{
    assert(n@.children =~= trees(n.children@));
}

/// Whether `t` occurs in `s` at `i`.
pub open spec fn starts_at(s: Seq<char>, t: Seq<char>, i: nat) -> bool {
    i + t.len() <= s.len() && s.subrange(i as int, (i + t.len()) as int) == t
}

/// Whether a character is a blank.
pub open spec fn is_blank(c: char) -> bool {
    c == ' ' || c == '\t' || c == '\r' || c == '\n'
}

/// Whether a comment starts at `i`.
pub open spec fn comment_at(s: Seq<char>, i: nat) -> bool {
    i < s.len() && (s[i as int] == '#' || (s[i as int] == '/' && i + 1 < s.len() && s[i as int + 1]
        == '/'))
}

/// The end of the line that `i` is on.
pub open spec fn line_end(s: Seq<char>, i: nat) -> nat
    decreases s.len() - i,
{
    if i >= s.len() || s[i as int] == '\n' {
        i
    } else {
        line_end(s, i + 1)
    }
}

/// The first place from `i` on that is neither blank nor part of a comment.
pub open spec fn past_blanks(s: Seq<char>, i: nat) -> nat
    decreases s.len() - i,
{
    if i >= s.len() {
        i
    } else if is_blank(s[i as int]) {
        past_blanks(s, i + 1)
    } else if comment_at(s, i) {
        proof {
            lemma_line_end(s, i + 1);
        }
        past_blanks(s, line_end(s, i + 1))
    } else {
        i
    }
}

pub proof fn lemma_line_end(s: Seq<char>, i: nat)
    ensures
        i <= line_end(s, i),
        i <= s.len() ==> line_end(s, i) <= s.len(),
    decreases s.len() - i,
{
    if i < s.len() && s[i as int] != '\n' {
        lemma_line_end(s, i + 1);
    }
}

/// What a parsing expression matches at `i`: the end of the match and the nodes in
/// it. `fuel` bounds the depth to which rules nest.
pub open spec fn matched(p: Peg, s: Seq<char>, i: nat, fuel: nat) -> Option<(nat, Seq<Tree>)>
    decreases fuel, p, s.len() - i,
{
    match p {
        Peg::Lit(t) => if starts_at(s, t@, i) {
            Some((i + t@.len(), Seq::empty()))
        } else {
            None
        },
        Peg::Range(a, b) => if i < s.len() && a <= s[i as int] <= b {
            Some((i + 1, Seq::empty()))
        } else {
            None
        },
        Peg::Any => if i < s.len() {
            Some((i + 1, Seq::empty()))
        } else {
            None
        },
        Peg::End => if i >= s.len() {
            Some((i, Seq::empty()))
        } else {
            None
        },
        Peg::Cat(a, b) => match matched(*a, s, i, fuel) {
            None => None,
            Some((j, x)) => match matched(*b, s, past_blanks(s, j), fuel) {
                None => None,
                Some((k, y)) => Some((k, x + y)),
            },
        },
        Peg::Glue(a, b) => match matched(*a, s, i, fuel) {
            None => None,
            Some((j, x)) => match matched(*b, s, j, fuel) {
                None => None,
                Some((k, y)) => Some((k, x + y)),
            },
        },
        Peg::Alt(a, b) => match matched(*a, s, i, fuel) {
            None => matched(*b, s, i, fuel),
            Some(m) => Some(m),
        },
        Peg::Opt(a) => match matched(*a, s, i, fuel) {
            None => Some((i, Seq::empty())),
            Some(m) => Some(m),
        },
        Peg::Many(a) => match matched(*a, s, i, fuel) {
            None => Some((i, Seq::empty())),
            Some((j, x)) => {
                let next = past_blanks(s, j);
                if next <= i || next > s.len() {
                    Some((j, x))
                } else {
                    match matched(p, s, next, fuel) {
                        None => Some((j, x)),
                        Some((k, y)) => if k == next {
                            Some((j, x))
                        } else {
                            Some((k, x + y))
                        },
                    }
                }
            },
        },
        Peg::Run(a) => match matched(*a, s, i, fuel) {
            None => Some((i, Seq::empty())),
            Some((j, x)) => if j <= i || j > s.len() {
                Some((j, x))
            } else {
                match matched(p, s, j, fuel) {
                    None => Some((j, x)),
                    Some((k, y)) => Some((k, x + y)),
                }
            },
        },
        Peg::Not(a) => match matched(*a, s, i, fuel) {
            None => Some((i, Seq::empty())),
            Some(_) => None,
        },
        Peg::Use(rule) => if fuel == 0 {
            None
        } else {
            match matched(body(rule), s, i, (fuel - 1) as nat) {
                None => None,
                Some((j, x)) => Some((j, framed(rule, s, i, j, x))),
            }
        },
    }
}

/// The nodes that a rule yields for the nodes inside it.
pub open spec fn framed(rule: Rule, s: Seq<char>, i: nat, j: nat, inner: Seq<Tree>) -> Seq<Tree> {
    match shape(rule) {
        Shape::Silent => inner,
        Shape::Leaf => seq![
            Tree {
                rule,
                text: s.subrange(i as int, j as int),
                start: i,
                children: Seq::empty(),
            },
        ],
        Shape::Branch => seq![
            Tree { rule, text: s.subrange(i as int, j as int), start: i, children: inner },
        ],
    }
}

/// The depth to which rules may nest in a text of the given length. Every rule
/// consumes a character after far fewer steps than this allows.
pub open spec fn depth_limit(len: nat) -> nat {
    32 * (len + 1)
}

/// The nodes that a rule yields at the start of a text.
pub open spec fn parsed(rule: Rule, s: Seq<char>) -> Option<Seq<Tree>> {
    match matched(Peg::Use(rule), s, 0, depth_limit(s.len())) {
        None => None,
        Some((_, x)) => Some(x),
    }
}

/// Decides [`starts_at`].
fn literal_at(chars: &Vec<char>, t: &str, i: usize) -> (r: bool)
    requires
        i <= chars.len(),
    ensures
        r == starts_at(chars@, t@, i as nat),
{
    let lit: Vec<char> = crate::names::chars_of(t);
    if lit.len() > chars.len() - i {
        return false;
    }
    let mut k: usize = 0;
    while k < lit.len()
        invariant
            k <= lit.len(),
            lit@ == t@,
            i + lit.len() <= chars.len(),
            forall|j: int| 0 <= j < k ==> #[trigger] t@[j] == chars@[i + j],
        decreases lit.len() - k,
    {
        if lit[k] != chars[i + k] {
            proof {
                let sub = chars@.subrange(i as int, i + t@.len());
                assert(sub[k as int] == chars@[i + k]);
            }
            return false;
        }
        k = k + 1;
    }
    proof {
        assert(chars@.subrange(i as int, i + t@.len()) =~= t@);
    }
    true
}

/// Computes [`past_blanks`].
fn skip_blanks(chars: &Vec<char>, i: usize) -> (r: usize)
    requires
        i <= chars.len(),
    ensures
        r == past_blanks(chars@, i as nat),
        i <= r <= chars.len(),
{
    let mut at: usize = i;
    loop
        invariant
            i <= at <= chars.len(),
            past_blanks(chars@, i as nat) == past_blanks(chars@, at as nat),
        decreases chars.len() - at,
    {
        if at >= chars.len() {
            return at;
        }
        let c: char = chars[at];
        if c == ' ' || c == '\t' || c == '\r' || c == '\n' {
            at = at + 1;
        } else if c == '#' || (c == '/' && at + 1 < chars.len() && chars[at + 1] == '/') {
            at = at + 1;
            let ghost from = at;
            while at < chars.len() && chars[at] != '\n'
                invariant
                    i <= at <= chars.len(),
                    from <= at,
                    line_end(chars@, from as nat) == line_end(chars@, at as nat),
                decreases chars.len() - at,
            {
                at = at + 1;
            }
        } else {
            return at;
        }
    }
}

/// The view of a match.
pub open spec fn match_view(m: Option<(usize, Vec<Node>)>) -> Option<(nat, Seq<Tree>)> {
    match m {
        None => None,
        Some((j, nodes)) => Some((j as nat, trees(nodes@))),
    }
}

fn no_nodes() -> (v: Vec<Node>)
    ensures
        trees(v@) == Seq::<Tree>::empty(),
{
    let v: Vec<Node> = Vec::new();
    assert(trees(v@) =~= Seq::<Tree>::empty());
    v
}

fn chained(x: Vec<Node>, y: Vec<Node>) -> (r: Vec<Node>)
    ensures
        trees(r@) == trees(x@) + trees(y@),
{
    let mut r: Vec<Node> = x;
    let mut rest: Vec<Node> = y;
    let ghost before = trees(r@);
    let ghost more = trees(rest@);
    r.append(&mut rest);
    assert(trees(r@) =~= before + more);
    r
}

/// Matches a parsing expression at `i`.
pub fn run(p: &Peg, source: &str, chars: &Vec<char>, i: usize, fuel: u128) -> (r: Option<
    (usize, Vec<Node>),
>)
    requires
        chars@ == source@,
        i <= chars.len(),
    ensures
        match_view(r) == matched(*p, source@, i as nat, fuel as nat),
        r matches Some((j, _)) ==> i <= j <= chars.len(),
    decreases fuel, p, chars.len() - i,
{
    match p {
        Peg::Lit(t) => {
            if literal_at(chars, t, i) {
                let len: usize = t.unicode_len();
                Some((i + len, no_nodes()))
            } else {
                None
            }
        },
        Peg::Range(a, b) => {
            if i < chars.len() && *a <= chars[i] && chars[i] <= *b {
                Some((i + 1, no_nodes()))
            } else {
                None
            }
        },
        Peg::Any => {
            if i < chars.len() {
                Some((i + 1, no_nodes()))
            } else {
                None
            }
        },
        Peg::End => {
            if i >= chars.len() {
                Some((i, no_nodes()))
            } else {
                None
            }
        },
        Peg::Cat(a, b) => {
            match run(a, source, chars, i, fuel) {
                None => None,
                Some((j, x)) => {
                    let next: usize = skip_blanks(chars, j);
                    match run(b, source, chars, next, fuel) {
                        None => None,
                        Some((k, y)) => Some((k, chained(x, y))),
                    }
                },
            }
        },
        Peg::Glue(a, b) => {
            match run(a, source, chars, i, fuel) {
                None => None,
                Some((j, x)) => {
                    match run(b, source, chars, j, fuel) {
                        None => None,
                        Some((k, y)) => Some((k, chained(x, y))),
                    }
                },
            }
        },
        Peg::Alt(a, b) => {
            match run(a, source, chars, i, fuel) {
                None => run(b, source, chars, i, fuel),
                Some(m) => Some(m),
            }
        },
        Peg::Opt(a) => {
            match run(a, source, chars, i, fuel) {
                None => Some((i, no_nodes())),
                Some(m) => Some(m),
            }
        },
        Peg::Many(a) => {
            match run(a, source, chars, i, fuel) {
                None => Some((i, no_nodes())),
                Some((j, x)) => {
                    let next: usize = skip_blanks(chars, j);
                    if next <= i {
                        return Some((j, x));
                    }
                    match run(p, source, chars, next, fuel) {
                        None => Some((j, x)),
                        Some((k, y)) => {
                            if k == next {
                                Some((j, x))
                            } else {
                                Some((k, chained(x, y)))
                            }
                        },
                    }
                },
            }
        },
        Peg::Run(a) => {
            match run(a, source, chars, i, fuel) {
                None => Some((i, no_nodes())),
                Some((j, x)) => {
                    if j <= i {
                        return Some((j, x));
                    }
                    match run(p, source, chars, j, fuel) {
                        None => Some((j, x)),
                        Some((k, y)) => Some((k, chained(x, y))),
                    }
                },
            }
        },
        Peg::Not(a) => {
            match run(a, source, chars, i, fuel) {
                None => Some((i, no_nodes())),
                Some(_) => None,
            }
        },
        Peg::Use(rule) => {
            if fuel == 0 {
                return None;
            }
            let inner: Peg = rule_body(*rule);
            match run(&inner, source, chars, i, fuel - 1) {
                None => None,
                Some((j, x)) => Some((j, frame(*rule, source, i, j, x))),
            }
        },
    }
}

/// Computes [`framed`].
fn frame(rule: Rule, source: &str, i: usize, j: usize, inner: Vec<Node>) -> (r: Vec<Node>)
    requires
        i <= j <= source@.len(),
    ensures
        trees(r@) == framed(rule, source@, i as nat, j as nat, trees(inner@)),
{
    match shape_of(rule) {
        Shape::Silent => inner,
        Shape::Leaf => {
            let node: Node = Node {
                rule,
                text: part(source, i, j),
                start: i,
                children: Vec::new(),
            };
            let mut r: Vec<Node> = Vec::new();
            r.push(node);
            proof {
                assert(node@.children =~= Seq::<Tree>::empty());
                assert(trees(r@) =~= framed(rule, source@, i as nat, j as nat, trees(inner@)));
            }
            r
        },
        Shape::Branch => {
            let ghost kids = trees(inner@);
            let node: Node = Node { rule, text: part(source, i, j), start: i, children: inner };
            let mut r: Vec<Node> = Vec::new();
            r.push(node);
            proof {
                lemma_children(node);
                assert(trees(r@) =~= framed(rule, source@, i as nat, j as nat, kids));
            }
            r
        },
    }
}

/// Parses a text by a rule, from its start on. What follows the match is left
/// unread.
pub fn parse_rule(rule: Rule, source: &str) -> (r: Option<Vec<Node>>)
    ensures
        parsed(rule, source@) == (match r {
            None => None,
            Some(nodes) => Some(trees(nodes@)),
        }),
{
    let chars: Vec<char> = crate::names::chars_of(source);
    let fuel: u128 = 32 * (chars.len() as u128 + 1);
    match run(&Peg::Use(rule), source, &chars, 0, fuel) {
        None => None,
        Some((_, nodes)) => Some(nodes),
    }
}

} // verus!
