//! Physical dimensions, as exponents of the base units.

use crate::names::same;
use crate::text::{
    cut_left, cut_right, dec_text, decimal, decimal_text, find, find_char, parse_decimal, part,
    strip_left, strip_right, trim, trimmed,
};
use vstd::prelude::*;
use vstd::string::*;

verus! {

/// A dimension: the exponents of metre, kilogram, second, ampere, kelvin, mole and
/// candela.
#[derive(Clone, Copy, Debug, PartialEq, Eq, Structural)]
pub struct Dim {
    pub m: i32,
    pub kg: i32,
    pub s: i32,
    pub a: i32,
    pub k: i32,
    pub mol: i32,
    pub cd: i32,
}

impl View for Dim {
    type V = Dim;

    open spec fn view(&self) -> Dim {
        *self
    }
}

/// The dimension of plain numbers.
pub open spec fn plain() -> Dim {
    Dim { m: 0, kg: 0, s: 0, a: 0, k: 0, mol: 0, cd: 0 }
}

/// The dimension of time.
pub open spec fn time() -> Dim {
    Dim { s: 1, ..plain() }
}

/// The dimension of a product.
pub open spec fn product(x: Dim, y: Dim) -> Dim {
    Dim {
        m: x.m.wrapping_add(y.m),
        kg: x.kg.wrapping_add(y.kg),
        s: x.s.wrapping_add(y.s),
        a: x.a.wrapping_add(y.a),
        k: x.k.wrapping_add(y.k),
        mol: x.mol.wrapping_add(y.mol),
        cd: x.cd.wrapping_add(y.cd),
    }
}

/// The dimension of a quotient.
pub open spec fn ratio(x: Dim, y: Dim) -> Dim {
    Dim {
        m: x.m.wrapping_sub(y.m),
        kg: x.kg.wrapping_sub(y.kg),
        s: x.s.wrapping_sub(y.s),
        a: x.a.wrapping_sub(y.a),
        k: x.k.wrapping_sub(y.k),
        mol: x.mol.wrapping_sub(y.mol),
        cd: x.cd.wrapping_sub(y.cd),
    }
}

/// The dimension of a square root, where every exponent is even.
pub open spec fn root(d: Dim) -> Option<Dim> {
    if d.m % 2 == 0 && d.kg % 2 == 0 && d.s % 2 == 0 && d.a % 2 == 0 && d.k % 2 == 0 && d.mol % 2
        == 0 && d.cd % 2 == 0 {
        Some(
            Dim {
                m: (d.m / 2) as i32,
                kg: (d.kg / 2) as i32,
                s: (d.s / 2) as i32,
                a: (d.a / 2) as i32,
                k: (d.k / 2) as i32,
                mol: (d.mol / 2) as i32,
                cd: (d.cd / 2) as i32,
            },
        )
    } else {
        None
    }
}

fn even(x: i32) -> (r: bool)
    ensures
        r == (x % 2 == 0),
{
    if x >= 0 {
        x % 2 == 0
    } else {
        (-(x as i64)) % 2 == 0
    }
}

fn half(x: i32) -> (r: i32)
    requires
        x % 2 == 0,
    ensures
        r == x / 2,
{
    if x >= 0 {
        x / 2
    } else {
        let y: i64 = -(x as i64);
        (-(y / 2)) as i32
    }
}

impl Dim {
    /// The dimension of plain numbers.
    pub fn dimensionless() -> (r: Dim)
        ensures
            r == plain(),
    {
        Dim { m: 0, kg: 0, s: 0, a: 0, k: 0, mol: 0, cd: 0 }
    }

    /// The dimension of time.
    pub fn seconds() -> (r: Dim)
        ensures
            r == time(),
    {
        Dim { m: 0, kg: 0, s: 1, a: 0, k: 0, mol: 0, cd: 0 }
    }

    /// The dimension of a product.
    pub fn times(self, other: Dim) -> (r: Dim)
        ensures
            r == product(self, other),
    {
        Dim {
            m: self.m.wrapping_add(other.m),
            kg: self.kg.wrapping_add(other.kg),
            s: self.s.wrapping_add(other.s),
            a: self.a.wrapping_add(other.a),
            k: self.k.wrapping_add(other.k),
            mol: self.mol.wrapping_add(other.mol),
            cd: self.cd.wrapping_add(other.cd),
        }
    }

    /// The dimension of a quotient.
    pub fn over(self, other: Dim) -> (r: Dim)
        ensures
            r == ratio(self, other),
    {
        Dim {
            m: self.m.wrapping_sub(other.m),
            kg: self.kg.wrapping_sub(other.kg),
            s: self.s.wrapping_sub(other.s),
            a: self.a.wrapping_sub(other.a),
            k: self.k.wrapping_sub(other.k),
            mol: self.mol.wrapping_sub(other.mol),
            cd: self.cd.wrapping_sub(other.cd),
        }
    }

    /// The dimension of a square root, where there is one.
    pub fn sqrt(self) -> (r: Option<Dim>)
        ensures
            r == root(self),
    {
        if even(self.m) && even(self.kg) && even(self.s) && even(self.a) && even(self.k) && even(
            self.mol,
        ) && even(self.cd) {
            Some(
                Dim {
                    m: half(self.m),
                    kg: half(self.kg),
                    s: half(self.s),
                    a: half(self.a),
                    k: half(self.k),
                    mol: half(self.mol),
                    cd: half(self.cd),
                },
            )
        } else {
            None
        }
    }
}

/// One exponent with its unit, behind what is already written.
pub open spec fn with_factor(head: Seq<char>, unit: Seq<char>, e: i32) -> Seq<char> {
    let joint = if head.len() == 0 {
        head
    } else {
        head + "*"@
    };
    if e == 0 {
        head
    } else if e == 1 {
        joint + unit
    } else if e < 0 {
        joint + unit + "^-"@ + dec_text((-e) as nat)
    } else {
        joint + unit + "^"@ + dec_text(e as nat)
    }
}

/// The notation of a dimension.
pub open spec fn dim_text(d: Dim) -> Seq<char> {
    let t = with_factor(""@, "m"@, d.m);
    let t = with_factor(t, "kg"@, d.kg);
    let t = with_factor(t, "s"@, d.s);
    let t = with_factor(t, "A"@, d.a);
    let t = with_factor(t, "K"@, d.k);
    let t = with_factor(t, "mol"@, d.mol);
    let t = with_factor(t, "cd"@, d.cd);
    if t.len() == 0 {
        "1"@
    } else {
        t
    }
}

fn add_factor(head: String, unit: &str, e: i32) -> (r: String)
    ensures
        r@ == with_factor(head@, unit@, e),
{
    if e == 0 {
        return head;
    }
    let mut r: String = head;
    if r.as_str().unicode_len() != 0 {
        r.append("*");
    }
    r.append(unit);
    if e == 1 {
        return r;
    }
    if e < 0 {
        r.append("^-");
        r.append(&decimal_text((-(e as i64)) as u64));
    } else {
        r.append("^");
        r.append(&decimal_text(e as u64));
    }
    r
}

impl Dim {
    /// The notation of the dimension.
    pub fn name(self) -> (r: String)
        ensures
            r@ == dim_text(self),
    {
        let t: String = add_factor("".to_owned(), "m", self.m);
        let t: String = add_factor(t, "kg", self.kg);
        let t: String = add_factor(t, "s", self.s);
        let t: String = add_factor(t, "A", self.a);
        let t: String = add_factor(t, "K", self.k);
        let t: String = add_factor(t, "mol", self.mol);
        let t: String = add_factor(t, "cd", self.cd);
        if t.as_str().unicode_len() == 0 {
            "1".to_owned()
        } else {
            t
        }
    }
}

/// The dimension of a base unit to a power.
pub open spec fn power(unit: Seq<char>, e: i32) -> Option<Dim> {
    if unit == "1"@ {
        Some(plain())
    } else if unit == "m"@ {
        Some(Dim { m: e, ..plain() })
    } else if unit == "kg"@ {
        Some(Dim { kg: e, ..plain() })
    } else if unit == "s"@ {
        Some(Dim { s: e, ..plain() })
    } else if unit == "A"@ {
        Some(Dim { a: e, ..plain() })
    } else if unit == "K"@ {
        Some(Dim { k: e, ..plain() })
    } else if unit == "mol"@ {
        Some(Dim { mol: e, ..plain() })
    } else if unit == "cd"@ {
        Some(Dim { cd: e, ..plain() })
    } else {
        None
    }
}

fn power_of(unit: &str, e: i32) -> (r: Option<Dim>)
    ensures
        r == power(unit@, e),
{
    let mut d: Dim = Dim::dimensionless();
    if same(unit, "1") {
        return Some(d);
    }
    if same(unit, "m") {
        d.m = e;
    } else if same(unit, "kg") {
        d.kg = e;
    } else if same(unit, "s") {
        d.s = e;
    } else if same(unit, "A") {
        d.a = e;
    } else if same(unit, "K") {
        d.k = e;
    } else if same(unit, "mol") {
        d.mol = e;
    } else if same(unit, "cd") {
        d.cd = e;
    } else {
        return None;
    }
    Some(d)
}

/// A small exponent, with an optional minus sign.
pub open spec fn exponent_text(s: Seq<char>) -> Option<i32> {
    if s.len() > 0 && s[0] == '-' {
        match decimal(s.drop_first()) {
            Some(n) => if n <= 127 {
                Some((-n) as i32)
            } else {
                None
            },
            None => None,
        }
    } else {
        match decimal(s) {
            Some(n) => if n <= 127 {
                Some(n as i32)
            } else {
                None
            },
            None => None,
        }
    }
}

fn parse_exponent(text: &str) -> (r: Option<i32>)
    ensures
        r == exponent_text(text@),
{
    let len: usize = text.unicode_len();
    if len > 0 && text.get_char(0) == '-' {
        let rest: String = part(text, 1, len);
        proof {
            assert(rest@ =~= text@.drop_first());
        }
        match parse_decimal(&rest) {
            Some(n) => {
                if n <= 127 {
                    Some(-(n as i32))
                } else {
                    None
                }
            },
            None => None,
        }
    } else {
        match parse_decimal(text) {
            Some(n) => {
                if n <= 127 {
                    Some(n as i32)
                } else {
                    None
                }
            },
            None => None,
        }
    }
}

/// The dimension of one factor, `unit` or `unit^n`.
pub open spec fn factor_dim(f: Seq<char>) -> Option<Dim> {
    let caret = find(f, '^');
    if caret < f.len() {
        match exponent_text(trimmed(f.skip(caret as int + 1))) {
            Some(e) => power(trimmed(f.take(caret as int)), e),
            None => None,
        }
    } else {
        power(trimmed(f), 1)
    }
}

fn parse_factor(f: &str) -> (r: Option<Dim>)
    ensures
        r == factor_dim(f@),
{
    let caret: usize = find_char(f, '^');
    let len: usize = f.unicode_len();
    if caret < len {
        let base: String = part(f, 0, caret);
        let up: String = part(f, caret + 1, len);
        proof {
            assert(base@ =~= f@.take(caret as int));
            assert(up@ =~= f@.skip(caret as int + 1));
        }
        match parse_exponent(&trim(&up)) {
            Some(e) => power_of(&trim(&base), e),
            None => None,
        }
    } else {
        power_of(&trim(f), 1)
    }
}

/// The index of the first `*` or `/`, or the length without one.
pub open spec fn next_operator(s: Seq<char>) -> nat {
    if find(s, '*') < find(s, '/') {
        find(s, '*')
    } else {
        find(s, '/')
    }
}

/// The dimension of factors with `*` and `/` between them, behind `acc`.
pub open spec fn factors_dim(s: Seq<char>, divide: bool, acc: Dim) -> Option<Dim>
    decreases s.len(),
{
    let at = next_operator(s);
    match factor_dim(s.take(at as int)) {
        None => None,
        Some(d) => {
            let acc = if divide {
                ratio(acc, d)
            } else {
                product(acc, d)
            };
            if at < s.len() {
                factors_dim(s.skip(at as int + 1), s[at as int] == '/', acc)
            } else {
                Some(acc)
            }
        },
    }
}

fn parse_factors(text: &str, divide: bool, acc: Dim) -> (r: Option<Dim>)
    ensures
        r == factors_dim(text@, divide, acc),
    decreases text@.len(),
{
    let star: usize = find_char(text, '*');
    let slash: usize = find_char(text, '/');
    let at: usize = if star < slash {
        star
    } else {
        slash
    };
    let len: usize = text.unicode_len();
    let head: String = part(text, 0, at);
    proof {
        assert(head@ =~= text@.take(at as int));
    }
    match parse_factor(&head) {
        None => None,
        Some(d) => {
            let acc: Dim = if divide {
                acc.over(d)
            } else {
                acc.times(d)
            };
            if at < len {
                let rest: String = part(text, at + 1, len);
                proof {
                    assert(rest@ =~= text@.skip(at as int + 1));
                }
                parse_factors(&rest, text.get_char(at) == '/', acc)
            } else {
                Some(acc)
            }
        },
    }
}

/// The dimension that an annotation in brackets stands for.
pub open spec fn unit_dim(annotation: Seq<char>) -> Option<Dim> {
    factors_dim(cut_right(cut_left(annotation, '['), ']'), false, plain())
}

/// Reads a unit annotation such as `[m/s^2]`. A text that is no product of powers of
/// base units stands for nothing.
pub fn parse_unit(annotation: &str) -> (r: Option<Dim>)
    ensures
        r == unit_dim(annotation@),
{
    let inner: String = strip_right(&strip_left(annotation, '['), ']');
    parse_factors(&inner, false, Dim::dimensionless())
}

/// The common dimension of two values. One without a declared dimension fits every
/// other.
pub open spec fn unified(x: Option<Dim>, y: Option<Dim>) -> Option<Option<Dim>> {
    match (x, y) {
        (None, _) => Some(y),
        (_, None) => Some(x),
        (Some(a), Some(b)) => if a == b {
            Some(x)
        } else {
            None
        },
    }
}

/// Computes [`unified`].
pub fn unify(x: Option<Dim>, y: Option<Dim>) -> (r: Option<Option<Dim>>)
    ensures
        r == unified(x, y),
{
    match (x, y) {
        (None, _) => Some(y),
        (_, None) => Some(x),
        (Some(a), Some(b)) => {
            if a == b {
                Some(x)
            } else {
                None
            }
        },
    }
}

/// The exponents of a dimension, in the order metre, kilogram, second, ampere, kelvin,
/// mole, candela.
pub open spec fn exponents(d: Dim) -> Seq<int> {
    seq![d.m as int, d.kg as int, d.s as int, d.a as int, d.k as int, d.mol as int, d.cd as int]
}

/// Whether an exponent can be held.
pub open spec fn holdable(e: int) -> bool {
    i32::MIN <= e <= i32::MAX
}

/// The exponents of a product are the sums of those of its factors, unit by unit.
pub proof fn law_product_adds_exponents(x: Dim, y: Dim, i: int)
    requires
        0 <= i < 7,
        holdable(exponents(x)[i] + exponents(y)[i]),
    ensures
        exponents(product(x, y))[i] == exponents(x)[i] + exponents(y)[i],
{
}

/// The exponents of a quotient are those of the dividend less those of the divisor,
/// unit by unit.
pub proof fn law_ratio_subtracts_exponents(x: Dim, y: Dim, i: int)
    requires
        0 <= i < 7,
        holdable(exponents(x)[i] - exponents(y)[i]),
    ensures
        exponents(ratio(x, y))[i] == exponents(x)[i] - exponents(y)[i],
{
}

/// Two dimensions with the same exponents are the same.
pub proof fn law_exponents_make_the_dimension(x: Dim, y: Dim)
    requires
        forall|i: int| 0 <= i < 7 ==> #[trigger] exponents(x)[i] == exponents(y)[i],
    ensures
        x == y,
{
    assert(exponents(x)[0] == exponents(y)[0]);
    assert(exponents(x)[1] == exponents(y)[1]);
    assert(exponents(x)[2] == exponents(y)[2]);
    assert(exponents(x)[3] == exponents(y)[3]);
    assert(exponents(x)[4] == exponents(y)[4]);
    assert(exponents(x)[5] == exponents(y)[5]);
    assert(exponents(x)[6] == exponents(y)[6]);
}

/// Dividing undoes multiplying, whatever the exponents, and a quotient of likes has no
/// dimension.
pub proof fn law_ratio_undoes_product(x: Dim, y: Dim)
    ensures
        product(ratio(x, y), y) == x,
        ratio(product(x, y), y) == x,
        forall|i: int| 0 <= i < 7 ==> #[trigger] exponents(ratio(x, x))[i] == 0,
{
}

/// A square root halves every exponent, and there is none where one of them is odd.
pub proof fn law_root_halves_exponents(d: Dim)
    ensures
        match root(d) {
            Some(r) => forall|i: int|
                0 <= i < 7 ==> 2 * #[trigger] exponents(r)[i] == exponents(d)[i],
            None => exists|i: int| 0 <= i < 7 && #[trigger] exponents(d)[i] % 2 == 1,
        },
{
    let e = exponents(d);
    assert(e[0] == d.m && e[1] == d.kg && e[2] == d.s && e[3] == d.a && e[4] == d.k && e[5]
        == d.mol && e[6] == d.cd);
}

/// The base units: each stands for itself to the first power, `1` for no dimension, and a
/// power of one for that exponent of it alone.
pub proof fn law_power_of_a_unit(e: i32)
    ensures
        power("1"@, e) == Some(plain()),
        forall|i: int| 0 <= i < 7 ==> #[trigger] exponents(plain())[i] == 0,
        power("m"@, e) matches Some(d) && exponents(d) == seq![e as int, 0, 0, 0, 0, 0, 0],
        power("kg"@, e) matches Some(d) && exponents(d) == seq![0, e as int, 0, 0, 0, 0, 0],
        power("s"@, e) matches Some(d) && exponents(d) == seq![0, 0, e as int, 0, 0, 0, 0],
        power("A"@, e) matches Some(d) && exponents(d) == seq![0, 0, 0, e as int, 0, 0, 0],
        power("K"@, e) matches Some(d) && exponents(d) == seq![0, 0, 0, 0, e as int, 0, 0],
        power("mol"@, e) matches Some(d) && exponents(d) == seq![0, 0, 0, 0, 0, e as int, 0],
        power("cd"@, e) matches Some(d) && exponents(d) == seq![0, 0, 0, 0, 0, 0, e as int],
        exponents(time()) == seq![0int, 0, 1, 0, 0, 0, 0],
{
    reveal_strlit("1");
    reveal_strlit("m");
    reveal_strlit("kg");
    reveal_strlit("s");
    reveal_strlit("A");
    reveal_strlit("K");
    reveal_strlit("mol");
    reveal_strlit("cd");
    assert("1"@[0] == '1' && "m"@[0] == 'm' && "kg"@[0] == 'k' && "s"@[0] == 's' && "A"@[0] == 'A'
        && "K"@[0] == 'K' && "mol"@[0] == 'm' && "cd"@[0] == 'c');
    assert("m"@.len() == 1 && "mol"@.len() == 3);
}

/// Two known dimensions fit one another exactly where they are the same.
pub proof fn law_known_dimensions_fit_their_like(x: Dim, y: Dim)
    ensures
        unified(Some(x), Some(y)) is Some <==> x == y,
        unified(Some(x), Some(x)) == Some(Some(x)),
{
}

} // verus!
