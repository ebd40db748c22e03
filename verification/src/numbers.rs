//! Numbers written in programs.
//!
//! The value of a number text, and the quotient of two values, are doubles. They are
//! worked out by the caller and handed in as a table of bits.

use crate::double::{equals_zero, zero};
use crate::decl::text_views;
use crate::names::{assoc_get, chars_of, NameMap};
use crate::text::{
    find, find_char, find_double_slash, find_slashes, is_digit, is_white, part, trim, trimmed,
    white,
};
use vstd::prelude::*;
use vstd::string::*;

verus! {

/// The doubles that texts stand for, and quotients of such doubles, all by their
/// bits. A text that is not in the table is no number.
pub struct Numbers {
    pub texts: NameMap<u64>,
    /// Dividend, divisor, quotient.
    pub ratios: Vec<(u64, u64, u64)>,
}

/// The mathematical value of [`Numbers`].
pub struct NumbersView {
    pub texts: Seq<(Seq<char>, u64)>,
    pub ratios: Seq<(u64, u64, u64)>,
}

impl View for Numbers {
    type V = NumbersView;

    open spec fn view(&self) -> NumbersView {
        NumbersView { texts: self.texts@, ratios: self.ratios@ }
    }
}

/// The number that a text stands for.
pub open spec fn number(n: NumbersView, text: Seq<char>) -> Option<u64> {
    assoc_get(n.texts, text)
}

/// The listed quotient of two numbers.
pub open spec fn quotient(s: Seq<(u64, u64, u64)>, a: u64, b: u64) -> Option<u64>
    decreases s.len(),
{
    if s.len() == 0 {
        None
    } else if s[0].0 == a && s[0].1 == b {
        Some(s[0].2)
    } else {
        quotient(s.drop_first(), a, b)
    }
}

/// A text up to its first comment of either kind, trimmed.
pub open spec fn uncommented(text: Seq<char>) -> Seq<char> {
    let hash = find(text, '#');
    let slashes = find_slashes(text);
    let cut = if hash < slashes {
        hash
    } else {
        slashes
    };
    trimmed(text.take(cut as int))
}

/// Cuts a text at its first comment and trims it.
pub fn strip_trailing_comment(text: &str) -> (r: String)
    ensures
        r@ == uncommented(text@),
{
    let hash: usize = find_char(text, '#');
    let slashes: usize = find_double_slash(text);
    let cut: usize = if hash < slashes {
        hash
    } else {
        slashes
    };
    let head: String = part(text, 0, cut);
    proof {
        assert(head@ =~= text@.take(cut as int));
    }
    trim(&head)
}

/// The number that a scalar fragment stands for: a number, or a fraction `a / b`
/// whose divisor is not zero.
pub open spec fn scalar(n: NumbersView, text: Seq<char>) -> Option<u64> {
    let t = uncommented(text);
    match number(n, t) {
        Some(v) => Some(v),
        None => {
            let slash = find(t, '/');
            if slash < t.len() {
                match (
                    number(n, trimmed(t.take(slash as int))),
                    number(n, trimmed(t.skip(slash as int + 1))),
                ) {
                    (Some(a), Some(b)) => if zero(b) {
                        None
                    } else {
                        quotient(n.ratios, a, b)
                    },
                    _ => None,
                }
            } else {
                None
            }
        },
    }
}

impl Numbers {
    /// The number that a text stands for.
    pub fn get(&self, text: &str) -> (r: Option<u64>)
        ensures
            r == number(self@, text@),
    {
        match self.texts.get(text) {
            Some(v) => Some(*v),
            None => None,
        }
    }

    /// The quotient of two numbers.
    pub fn ratio(&self, a: u64, b: u64) -> (r: Option<u64>)
        ensures
            r == quotient(self@.ratios, a, b),
    {
        let mut i: usize = 0;
        proof {
            assert(self.ratios@.skip(0) =~= self.ratios@);
        }
        while i < self.ratios.len()
            invariant
                i <= self.ratios.len(),
                quotient(self.ratios@, a, b) == quotient(self.ratios@.skip(i as int), a, b),
            decreases self.ratios.len() - i,
        {
            proof {
                assert(self.ratios@.skip(i as int).drop_first() =~= self.ratios@.skip(i + 1));
            }
            let entry: (u64, u64, u64) = self.ratios[i];
            if entry.0 == a && entry.1 == b {
                return Some(entry.2);
            }
            i = i + 1;
        }
        None
    }

    /// Reads a plain numeric scalar. Any other text is no number.
    pub fn parse_scalar_number(&self, text: &str) -> (r: Option<u64>)
        ensures
            r == scalar(self@, text@),
    {
        let t: String = strip_trailing_comment(text);
        if let Some(v) = self.get(&t) {
            return Some(v);
        }
        let slash: usize = find_char(&t, '/');
        let len: usize = t.as_str().unicode_len();
        if slash >= len {
            return None;
        }
        let left: String = part(&t, 0, slash);
        let right: String = part(&t, slash + 1, len);
        proof {
            assert(left@ =~= t@.take(slash as int));
            assert(right@ =~= t@.skip(slash as int + 1));
        }
        match (self.get(&trim(&left)), self.get(&trim(&right))) {
            (Some(a), Some(b)) => {
                if equals_zero(b) {
                    None
                } else {
                    self.ratio(a, b)
                }
            },
            _ => None,
        }
    }
}

/// The first place from `i` on without a digit.
pub open spec fn digits_end(s: Seq<char>, i: nat) -> nat
    decreases s.len() - i,
{
    if i < s.len() && is_digit(s[i as int]) {
        digits_end(s, i + 1)
    } else {
        i
    }
}

/// The end of a numeral's fraction part that may follow at `b`.
pub open spec fn point_end(s: Seq<char>, b: nat) -> nat {
    if b + 1 < s.len() && s[b as int] == '.' && is_digit(s[b as int + 1]) {
        digits_end(s, b + 1)
    } else {
        b
    }
}

/// The end of a numeral's exponent that may follow at `c`.
pub open spec fn exponent_end(s: Seq<char>, c: nat) -> nat {
    if c < s.len() && (s[c as int] == 'e' || s[c as int] == 'E') {
        let d = if c + 1 < s.len() && (s[c as int + 1] == '+' || s[c as int + 1] == '-') {
            c + 2
        } else {
            c + 1
        };
        if digits_end(s, d) > d {
            digits_end(s, d)
        } else {
            c
        }
    } else {
        c
    }
}

/// The end of the longest numeral that starts at `i`; `i` itself where none does.
pub open spec fn numeral_end(s: Seq<char>, i: nat) -> nat {
    let a = if i < s.len() && s[i as int] == '-' {
        i + 1
    } else {
        i
    };
    let b = digits_end(s, a);
    if b == a {
        i
    } else {
        exponent_end(s, point_end(s, b))
    }
}

/// The first place from `i` on that is not white.
pub open spec fn white_end(s: Seq<char>, i: nat) -> nat
    decreases s.len() - i,
{
    if i < s.len() && is_white(s[i as int]) {
        white_end(s, i + 1)
    } else {
        i
    }
}

/// The two numerals of the fraction whose first one starts at `i`.
pub open spec fn fraction_at(s: Seq<char>, i: nat) -> Option<(Seq<char>, Seq<char>)> {
    let e = numeral_end(s, i);
    let w = white_end(s, e);
    if e > i && w < s.len() && s[w as int] == '/' {
        let d = white_end(s, w + 1);
        let f = numeral_end(s, d);
        if f > d {
            Some((s.subrange(i as int, e as int), s.subrange(d as int, f as int)))
        } else {
            None
        }
    } else {
        None
    }
}

/// The numerals that start before place `k`.
pub open spec fn numerals_before(s: Seq<char>, k: nat) -> Seq<Seq<char>>
    decreases k,
{
    if k == 0 || k > s.len() {
        Seq::empty()
    } else {
        let found = numerals_before(s, (k - 1) as nat);
        let e = numeral_end(s, (k - 1) as nat);
        if e > k - 1 {
            found.push(s.subrange(k - 1, e as int))
        } else {
            found
        }
    }
}

/// The fractions that start before place `k`.
pub open spec fn fractions_before(s: Seq<char>, k: nat) -> Seq<(Seq<char>, Seq<char>)>
    decreases k,
{
    if k == 0 || k > s.len() {
        Seq::empty()
    } else {
        let found = fractions_before(s, (k - 1) as nat);
        match fraction_at(s, (k - 1) as nat) {
            Some(f) => found.push(f),
            None => found,
        }
    }
}

fn end_of_digits(s: &Vec<char>, i: usize) -> (r: usize)
    requires
        i <= s@.len(),
    ensures
        r == digits_end(s@, i as nat),
        i <= r <= s@.len(),
{
    let mut k: usize = i;
    while k < s.len() && s[k] >= '0' && s[k] <= '9'
        invariant
            i <= k <= s@.len(),
            digits_end(s@, i as nat) == digits_end(s@, k as nat),
        decreases s.len() - k,
    {
        k = k + 1;
    }
    k
}

fn end_of_point(s: &Vec<char>, b: usize) -> (r: usize)
    requires
        b <= s@.len(),
    ensures
        r == point_end(s@, b as nat),
        b <= r <= s@.len(),
{
    if b < s.len() && b + 1 < s.len() && s[b] == '.' && s[b + 1] >= '0' && s[b + 1] <= '9' {
        end_of_digits(s, b + 1)
    } else {
        b
    }
}

fn end_of_exponent(s: &Vec<char>, c: usize) -> (r: usize)
    requires
        c <= s@.len(),
    ensures
        r == exponent_end(s@, c as nat),
        c <= r <= s@.len(),
{
    if c < s.len() && (s[c] == 'e' || s[c] == 'E') {
        let d: usize = if c + 1 < s.len() && (s[c + 1] == '+' || s[c + 1] == '-') {
            c + 2
        } else {
            c + 1
        };
        let e: usize = end_of_digits(s, d);
        if e > d {
            e
        } else {
            c
        }
    } else {
        c
    }
}

fn end_of_numeral(s: &Vec<char>, i: usize) -> (r: usize)
    requires
        i <= s@.len(),
    ensures
        r == numeral_end(s@, i as nat),
        i <= r <= s@.len(),
{
    let a: usize = if i < s.len() && s[i] == '-' {
        i + 1
    } else {
        i
    };
    let b: usize = end_of_digits(s, a);
    if b == a {
        i
    } else {
        end_of_exponent(s, end_of_point(s, b))
    }
}

fn end_of_white(s: &Vec<char>, i: usize) -> (r: usize)
    requires
        i <= s@.len(),
    ensures
        r == white_end(s@, i as nat),
        i <= r <= s@.len(),
{
    let mut k: usize = i;
    while k < s.len() && white(s[k])
        invariant
            i <= k <= s@.len(),
            white_end(s@, i as nat) == white_end(s@, k as nat),
        decreases s.len() - k,
    {
        k = k + 1;
    }
    k
}

/// Lists the numerals of a text: at every place where one starts, the longest one. A
/// table with their values tells every number of a program.
pub fn numerals(text: &str) -> (r: Vec<String>)
    ensures
        text_views(r@) == numerals_before(text@, text@.len()),
{
    let chars: Vec<char> = chars_of(text);
    let mut found: Vec<String> = Vec::new();
    let mut i: usize = 0;
    proof {
        assert(text_views(found@) =~= Seq::<Seq<char>>::empty());
    }
    while i < chars.len()
        invariant
            i <= chars.len(),
            chars@ == text@,
            text_views(found@) == numerals_before(text@, i as nat),
        decreases chars.len() - i,
    {
        let e: usize = end_of_numeral(&chars, i);
        if e > i {
            let ghost before = text_views(found@);
            let numeral: String = part(text, i, e);
            found.push(numeral);
            proof {
                assert(text_views(found@) =~= before.push(text@.subrange(i as int, e as int)));
            }
        }
        i = i + 1;
    }
    found
}

/// Lists the fractions of a text: the numerals on the two sides of a slash.
pub fn fractions(text: &str) -> (r: Vec<(String, String)>)
    ensures
        r@.map_values(|p: (String, String)| (p.0@, p.1@)) == fractions_before(
            text@,
            text@.len(),
        ),
{
    let chars: Vec<char> = chars_of(text);
    let ghost view = |p: (String, String)| (p.0@, p.1@);
    let mut found: Vec<(String, String)> = Vec::new();
    let mut i: usize = 0;
    proof {
        assert(found@.map_values(view) =~= Seq::<(Seq<char>, Seq<char>)>::empty());
    }
    while i < chars.len()
        invariant
            i <= chars.len(),
            chars@ == text@,
            view == (|p: (String, String)| (p.0@, p.1@)),
            found@.map_values(view) == fractions_before(text@, i as nat),
        decreases chars.len() - i,
    {
        let ghost before = found@.map_values(view);
        let e: usize = end_of_numeral(&chars, i);
        let w: usize = end_of_white(&chars, e);
        if e > i && w < chars.len() && chars[w] == '/' {
            let d: usize = end_of_white(&chars, w + 1);
            let f: usize = end_of_numeral(&chars, d);
            if f > d {
                found.push((part(text, i, e), part(text, d, f)));
                proof {
                    assert(found@.map_values(view) =~= before.push(
                        (
                            text@.subrange(i as int, e as int),
                            text@.subrange(d as int, f as int),
                        ),
                    ));
                }
            }
        }
        i = i + 1;
    }
    found
}

/// Every numeral of a text is listed, wherever it starts.
pub proof fn law_every_numeral_is_listed(s: Seq<char>, i: nat)
    requires
        i < s.len(),
        numeral_end(s, i) > i,
    ensures
        numerals_before(s, s.len()).contains(s.subrange(i as int, numeral_end(s, i) as int)),
{
    lemma_listed(s, s.len(), i);
}

proof fn lemma_listed(s: Seq<char>, k: nat, i: nat)
    requires
        i < k <= s.len(),
        numeral_end(s, i) > i,
    ensures
        numerals_before(s, k).contains(s.subrange(i as int, numeral_end(s, i) as int)),
    decreases k,
{
    let found = numerals_before(s, (k - 1) as nat);
    let all = numerals_before(s, k);
    let numeral = s.subrange(i as int, numeral_end(s, i) as int);
    if i == k - 1 {
        assert(all[found.len() as int] == numeral);
    } else {
        lemma_listed(s, (k - 1) as nat, i);
        let at = choose|at: int| 0 <= at < found.len() && found[at] == numeral;
        assert(all[at] == numeral);
    }
}

} // verus!
