//! Small operations on strings.

use crate::names::same;
use vstd::prelude::*;
use vstd::string::*;

verus! {

/// The index of the first `c` in `s`, or the length of `s` without one.
pub open spec fn find(s: Seq<char>, c: char) -> nat
    decreases s.len(),
{
    if s.len() == 0 || s[0] == c {
        0
    } else {
        1 + find(s.drop_first(), c)
    }
}

pub proof fn lemma_find_bound(s: Seq<char>, c: char)
    ensures
        find(s, c) <= s.len(),
    decreases s.len(),
{
    if s.len() > 0 && s[0] != c {
        lemma_find_bound(s.drop_first(), c);
    }
}

/// Finds the first occurrence of a character.
pub fn find_char(text: &str, c: char) -> (r: usize)
    ensures
        r == find(text@, c),
        r <= text@.len(),
{
    let chars: Vec<char> = crate::names::chars_of(text);
    let mut i: usize = 0;
    proof {
        assert(chars@.skip(0) =~= chars@);
        lemma_find_bound(text@, c);
    }
    while i < chars.len() && chars[i] != c
        invariant
            i <= chars.len(),
            find(chars@, c) == i + find(chars@.skip(i as int), c),
        decreases chars.len() - i,
    {
        proof {
            assert(chars@.skip(i as int).drop_first() =~= chars@.skip(i + 1));
        }
        i = i + 1;
    }
    i
}

/// The characters from `from` to `to`.
pub fn part(text: &str, from: usize, to: usize) -> (r: String)
    requires
        from <= to <= text@.len(),
    ensures
        r@ == text@.subrange(from as int, to as int),
{
    text.substring_char(from, to).to_owned()
}

/// What follows `prefix` in `s`, where `s` begins with it.
pub open spec fn strip(s: Seq<char>, prefix: Seq<char>) -> Option<Seq<char>> {
    if prefix.len() <= s.len() && s.take(prefix.len() as int) == prefix {
        Some(s.skip(prefix.len() as int))
    } else {
        None
    }
}

/// Computes [`strip`].
pub fn strip_prefix(text: &str, prefix: &str) -> (r: Option<String>)
    ensures
        strip(text@, prefix@) == (match r {
            Some(rest) => Some(rest@),
            None => None,
        }),
{
    let n: usize = prefix.unicode_len();
    let len: usize = text.unicode_len();
    if n <= len && same(text.substring_char(0, n), prefix) {
        let rest: String = part(text, n, len);
        proof {
            assert(text@.subrange(0, n as int) =~= text@.take(n as int));
            assert(rest@ =~= text@.skip(n as int));
        }
        Some(rest)
    } else {
        proof {
            if n <= len {
                assert(text@.subrange(0, n as int) =~= text@.take(n as int));
            }
        }
        None
    }
}

/// A name within a namespace, `space.name`.
pub open spec fn qualified(space: Seq<char>, name: Seq<char>) -> Seq<char> {
    space + seq!['.'] + name
}

/// Joins two names with a dot.
pub fn dotted(space: &str, name: &str) -> (r: String)
    ensures
        r@ == qualified(space@, name@),
{
    let mut r: String = space.to_owned();
    r.append(".");
    r.append(name);
    proof {
        reveal_strlit(".");
        assert("."@ =~= seq!['.']);
    }
    r
}

/// Two texts one after the other.
pub fn joined(a: &str, b: &str) -> (r: String)
    ensures
        r@ == a@ + b@,
{
    let mut r: String = a.to_owned();
    r.append(b);
    r
}

/// Whether a character is a decimal digit.
pub open spec fn is_digit(c: char) -> bool {
    '0' <= c <= '9'
}

/// Whether every character is a decimal digit.
pub open spec fn all_digits(s: Seq<char>) -> bool {
    forall|i: int| 0 <= i < s.len() ==> is_digit(#[trigger] s[i])
}

/// The number that a string of decimal digits stands for.
pub open spec fn dec_value(s: Seq<char>) -> nat
    decreases s.len(),
{
    if s.len() == 0 {
        0
    } else {
        dec_value(s.drop_last()) * 10 + (s.last() as int - '0' as int) as nat
    }
}

proof fn lemma_dec_monotone(s: Seq<char>, n: int)
    requires
        all_digits(s),
        0 <= n <= s.len(),
    ensures
        dec_value(s.take(n)) <= dec_value(s),
    decreases s.len(),
{
    if n < s.len() {
        let t = s.drop_last();
        assert(all_digits(t)) by {
            assert forall|i: int| 0 <= i < t.len() implies is_digit(#[trigger] t[i]) by {
                assert(t[i] == s[i]);
            }
        }
        lemma_dec_monotone(t, n);
        assert(t.take(n) =~= s.take(n));
        assert(is_digit(s[s.len() - 1]));
    } else {
        assert(s.take(n) =~= s);
    }
}

/// The number written as a nonempty string of decimal digits, where it fits.
pub open spec fn decimal(s: Seq<char>) -> Option<usize> {
    if s.len() > 0 && all_digits(s) && dec_value(s) <= usize::MAX {
        Some(dec_value(s) as usize)
    } else {
        None
    }
}

/// Reads a nonempty string of decimal digits.
pub fn parse_decimal(text: &str) -> (r: Option<usize>)
    ensures
        r == decimal(text@),
{
    let chars: Vec<char> = crate::names::chars_of(text);
    if chars.len() == 0 {
        return None;
    }
    let mut k: usize = 0;
    while k < chars.len()
        invariant
            k <= chars.len(),
            chars@ == text@,
            forall|i: int| 0 <= i < k ==> is_digit(#[trigger] text@[i]),
        decreases chars.len() - k,
    {
        if !(chars[k] >= '0' && chars[k] <= '9') {
            proof {
                assert(!is_digit(text@[k as int]));
            }
            return None;
        }
        k = k + 1;
    }
    let mut value: usize = 0;
    let mut i: usize = 0;
    while i < chars.len()
        invariant
            i <= chars.len(),
            chars@ == text@,
            all_digits(text@),
            value == dec_value(text@.take(i as int)),
        decreases chars.len() - i,
    {
        let c: char = chars[i];
        proof {
            assert(is_digit(text@[i as int]));
            assert(text@.take(i + 1).drop_last() =~= text@.take(i as int));
            lemma_dec_monotone(text@, i + 1);
        }
        let digit: usize = (c as u32 - '0' as u32) as usize;
        match value.checked_mul(10) {
            None => return None,
            Some(tens) => match tens.checked_add(digit) {
                None => return None,
                Some(v) => {
                    value = v;
                },
            },
        }
        i = i + 1;
    }
    proof {
        assert(text@.take(text@.len() as int) =~= text@);
    }
    Some(value)
}

/// The slot number of an `sN` token; no other name has one.
pub open spec fn slot_number(key: Seq<char>) -> Option<usize> {
    if key.len() > 0 && key[0] == 's' {
        decimal(key.drop_first())
    } else {
        None
    }
}

/// Reads the slot number of an `sN` token. A name that merely starts with `s` has
/// none.
pub fn numeric_slot(key: &str) -> (r: Option<usize>)
    ensures
        r == slot_number(key@),
{
    let len: usize = key.unicode_len();
    if len > 0 && key.get_char(0) == 's' {
        let digits: String = part(key, 1, len);
        proof {
            assert(digits@ =~= key@.drop_first());
        }
        parse_decimal(&digits)
    } else {
        None
    }
}

/// Whether a character is white space.
pub open spec fn is_white(c: char) -> bool {
    let n = c as u32;
    9 <= n <= 13 || n == 0x20 || n == 0x85 || n == 0xa0 || n == 0x1680 || 0x2000 <= n <= 0x200a || n
        == 0x2028 || n == 0x2029 || n == 0x202f || n == 0x205f || n == 0x3000
}

/// Decides [`is_white`].
pub fn white(c: char) -> (r: bool)
    ensures
        r == is_white(c),
{
    let n: u32 = c as u32;
    (9 <= n && n <= 13) || n == 0x20 || n == 0x85 || n == 0xa0 || n == 0x1680 || (0x2000 <= n && n
        <= 0x200a) || n == 0x2028 || n == 0x2029 || n == 0x202f || n == 0x205f || n == 0x3000
}

/// A text without the white space at its start.
pub open spec fn trim_left(s: Seq<char>) -> Seq<char>
    decreases s.len(),
{
    if s.len() > 0 && is_white(s[0]) {
        trim_left(s.drop_first())
    } else {
        s
    }
}

/// A text without the white space at its end.
pub open spec fn trim_right(s: Seq<char>) -> Seq<char>
    decreases s.len(),
{
    if s.len() > 0 && is_white(s.last()) {
        trim_right(s.drop_last())
    } else {
        s
    }
}

/// A text without the white space at either end.
pub open spec fn trimmed(s: Seq<char>) -> Seq<char> {
    trim_right(trim_left(s))
}

/// Removes the white space at the start.
pub fn trim_start(text: &str) -> (r: String)
    ensures
        r@ == trim_left(text@),
{
    let chars: Vec<char> = crate::names::chars_of(text);
    let mut i: usize = 0;
    proof {
        assert(text@.skip(0) =~= text@);
    }
    while i < chars.len() && white(chars[i])
        invariant
            i <= chars.len(),
            chars@ == text@,
            trim_left(text@) == trim_left(text@.skip(i as int)),
        decreases chars.len() - i,
    {
        proof {
            assert(text@.skip(i as int).drop_first() =~= text@.skip(i + 1));
        }
        i = i + 1;
    }
    let r: String = part(text, i, chars.len());
    proof {
        assert(r@ =~= text@.skip(i as int));
    }
    r
}

/// Removes the white space at either end.
pub fn trim(text: &str) -> (r: String)
    ensures
        r@ == trimmed(text@),
{
    let left: String = trim_start(text);
    let chars: Vec<char> = crate::names::chars_of(&left);
    let mut n: usize = chars.len();
    proof {
        assert(left@.take(n as int) =~= left@);
    }
    while n > 0 && white(chars[n - 1])
        invariant
            n <= chars.len(),
            chars@ == left@,
            trim_right(left@) == trim_right(left@.take(n as int)),
        decreases n,
    {
        proof {
            assert(left@.take(n as int).drop_last() =~= left@.take(n - 1));
        }
        n = n - 1;
    }
    let r: String = part(&left, 0, n);
    proof {
        assert(r@ =~= left@.take(n as int));
    }
    r
}

/// A text without any `c` at its start.
pub open spec fn cut_left(s: Seq<char>, c: char) -> Seq<char>
    decreases s.len(),
{
    if s.len() > 0 && s[0] == c {
        cut_left(s.drop_first(), c)
    } else {
        s
    }
}

/// A text without any `c` at its end.
pub open spec fn cut_right(s: Seq<char>, c: char) -> Seq<char>
    decreases s.len(),
{
    if s.len() > 0 && s.last() == c {
        cut_right(s.drop_last(), c)
    } else {
        s
    }
}

/// Removes every `c` at the start.
pub fn strip_left(text: &str, c: char) -> (r: String)
    ensures
        r@ == cut_left(text@, c),
{
    let chars: Vec<char> = crate::names::chars_of(text);
    let mut i: usize = 0;
    proof {
        assert(text@.skip(0) =~= text@);
    }
    while i < chars.len() && chars[i] == c
        invariant
            i <= chars.len(),
            chars@ == text@,
            cut_left(text@, c) == cut_left(text@.skip(i as int), c),
        decreases chars.len() - i,
    {
        proof {
            assert(text@.skip(i as int).drop_first() =~= text@.skip(i + 1));
        }
        i = i + 1;
    }
    let r: String = part(text, i, chars.len());
    proof {
        assert(r@ =~= text@.skip(i as int));
    }
    r
}

/// Removes every `c` at the end.
pub fn strip_right(text: &str, c: char) -> (r: String)
    ensures
        r@ == cut_right(text@, c),
{
    let chars: Vec<char> = crate::names::chars_of(text);
    let mut n: usize = chars.len();
    proof {
        assert(text@.take(n as int) =~= text@);
    }
    while n > 0 && chars[n - 1] == c
        invariant
            n <= chars.len(),
            chars@ == text@,
            cut_right(text@, c) == cut_right(text@.take(n as int), c),
        decreases n,
    {
        proof {
            assert(text@.take(n as int).drop_last() =~= text@.take(n - 1));
        }
        n = n - 1;
    }
    let r: String = part(text, 0, n);
    proof {
        assert(r@ =~= text@.take(n as int));
    }
    r
}

/// The index of the first `//` in a text, or its length without one.
pub open spec fn find_slashes(s: Seq<char>) -> nat
    decreases s.len(),
{
    if s.len() < 2 {
        s.len()
    } else if s[0] == '/' && s[1] == '/' {
        0
    } else {
        1 + find_slashes(s.drop_first())
    }
}

/// Computes [`find_slashes`].
pub fn find_double_slash(text: &str) -> (r: usize)
    ensures
        r == find_slashes(text@),
        r <= text@.len(),
{
    let chars: Vec<char> = crate::names::chars_of(text);
    let mut i: usize = 0;
    proof {
        assert(text@.skip(0) =~= text@);
    }
    while chars.len() - i >= 2 && !(chars[i] == '/' && chars[i + 1] == '/')
        invariant
            i <= chars.len(),
            chars@ == text@,
            find_slashes(text@) == i + find_slashes(text@.skip(i as int)),
        decreases chars.len() - i,
    {
        proof {
            assert(text@.skip(i as int).drop_first() =~= text@.skip(i + 1));
        }
        i = i + 1;
    }
    if chars.len() - i >= 2 {
        i
    } else {
        chars.len()
    }
}

/// Whether a character occurs in a text.
pub fn has_char(text: &str, c: char) -> (r: bool)
    ensures
        r == (find(text@, c) < text@.len()),
{
    find_char(text, c) < text.unicode_len()
}

/// The decimal digit of a number below ten.
pub open spec fn digit_char(d: nat) -> char {
    ('0' as u32 + d) as char
}

/// A number in decimal notation.
pub open spec fn dec_text(n: nat) -> Seq<char>
    decreases n,
{
    if n < 10 {
        seq![digit_char(n)]
    } else {
        dec_text(n / 10).push(digit_char(n % 10))
    }
}

fn digit_text(d: u64) -> (r: &'static str)
    requires
        d < 10,
    ensures
        r@ == seq![digit_char(d as nat)],
{
    proof {
        reveal_strlit("0");
        reveal_strlit("1");
        reveal_strlit("2");
        reveal_strlit("3");
        reveal_strlit("4");
        reveal_strlit("5");
        reveal_strlit("6");
        reveal_strlit("7");
        reveal_strlit("8");
        reveal_strlit("9");
    }
    let r: &'static str = if d == 0 {
        "0"
    } else if d == 1 {
        "1"
    } else if d == 2 {
        "2"
    } else if d == 3 {
        "3"
    } else if d == 4 {
        "4"
    } else if d == 5 {
        "5"
    } else if d == 6 {
        "6"
    } else if d == 7 {
        "7"
    } else if d == 8 {
        "8"
    } else {
        "9"
    };
    proof {
        assert(r@ =~= seq![digit_char(d as nat)]);
    }
    r
}

/// Writes a number in decimal notation.
pub fn decimal_text(n: u64) -> (r: String)
    ensures
        r@ == dec_text(n as nat),
    decreases n,
{
    if n < 10 {
        digit_text(n).to_owned()
    } else {
        let mut r: String = decimal_text(n / 10);
        let ghost head = r@;
        r.append(digit_text(n % 10));
        proof {
            assert(r@ =~= head.push(digit_char((n % 10) as nat)));
        }
        r
    }
}

} // verus!
