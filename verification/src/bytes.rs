//! Integers as little-endian bytes, and digests as bytes.

use crate::api::Hash256;
use vstd::prelude::*;

verus! {

/// The integer whose bytes, lowest first, are given.
pub open spec fn le_value(s: Seq<u8>) -> nat
    decreases s.len(),
{
    if s.len() == 0 {
        0
    } else {
        s[0] as nat + 256 * le_value(s.drop_first())
    }
}

/// The lowest `len` bytes of an integer, lowest first.
pub open spec fn le_bytes(v: nat, len: nat) -> Seq<u8>
    decreases len,
{
    if len == 0 {
        Seq::empty()
    } else {
        seq![(v % 256) as u8] + le_bytes(v / 256, (len - 1) as nat)
    }
}

/// A power of 256.
pub open spec fn base(n: nat) -> nat
    decreases n,
{
    if n == 0 {
        1
    } else {
        256 * base((n - 1) as nat)
    }
}

proof fn lemma_value_bound(s: Seq<u8>)
    ensures
        le_value(s) < base(s.len()),
    decreases s.len(),
{
    if s.len() > 0 {
        lemma_value_bound(s.drop_first());
    }
}

proof fn lemma_base(n: nat)
    requires
        n <= 8,
    ensures
        base(n) <= 0x1_0000_0000_0000_0000,
{
    reveal_with_fuel(base, 10);
}

/// The leading bytes that a 64-bit value takes.
pub open spec fn head(s: Seq<u8>) -> Seq<u8> {
    if s.len() > 8 {
        s.take(8)
    } else {
        s
    }
}

/// The 64-bit value in the leading bytes; missing bytes are zero.
pub fn value_from_bytes(bytes: &Vec<u8>) -> (r: u64)
    ensures
        r == le_value(head(bytes@)),
{
    let n: usize = if bytes.len() > 8 {
        8
    } else {
        bytes.len()
    };
    let ghost s = head(bytes@);
    let mut i: usize = n;
    let mut v: u64 = 0;
    proof {
        assert(s.skip(n as int) =~= Seq::<u8>::empty());
    }
    while i > 0
        invariant
            i <= n <= 8,
            n == s.len(),
            n <= bytes@.len(),
            s == head(bytes@),
            v == le_value(s.skip(i as int)),
        decreases i,
    {
        proof {
            let rest = s.skip(i - 1);
            assert(rest.drop_first() =~= s.skip(i as int));
            assert(rest[0] == bytes@[i - 1]);
            lemma_value_bound(rest);
            lemma_base(rest.len());
        }
        i = i - 1;
        v = v * 256 + bytes[i] as u64;
    }
    proof {
        assert(s.skip(0) =~= s);
    }
    v
}

/// The bytes of a value, cut or filled with zeros to a length.
pub fn value_into_bytes(value: u64, len: usize) -> (r: Vec<u8>)
    ensures
        r@ == le_bytes(value as nat, len as nat),
{
    let mut out: Vec<u8> = Vec::new();
    let mut rest: u64 = value;
    let mut i: usize = 0;
    proof {
        assert(out@ + le_bytes(value as nat, len as nat) =~= le_bytes(value as nat, len as nat));
    }
    while i < len
        invariant
            i <= len,
            out@ + le_bytes(rest as nat, (len - i) as nat) == le_bytes(value as nat, len as nat),
        decreases len - i,
    {
        let ghost before = out@;
        let b: u8 = (rest % 256) as u8;
        out.push(b);
        proof {
            assert(out@ + le_bytes((rest / 256) as nat, (len - i - 1) as nat) =~= before + (seq![b]
                + le_bytes((rest / 256) as nat, (len - i - 1) as nat)));
        }
        rest = rest / 256;
        i = i + 1;
    }
    proof {
        assert(out@ + Seq::<u8>::empty() =~= out@);
    }
    out
}

/// Bytes that hold an integer whole give it back.
pub proof fn law_value_of_bytes(v: nat, len: nat)
    requires
        v < base(len),
    ensures
        le_value(le_bytes(v, len)) == v,
    decreases len,
{
    if len > 0 {
        let r = le_bytes(v, len);
        assert(r.drop_first() =~= le_bytes(v / 256, (len - 1) as nat));
        assert(v / 256 < base((len - 1) as nat));
        law_value_of_bytes(v / 256, (len - 1) as nat);
    }
}

/// The integer of some bytes gives them back.
pub proof fn law_bytes_of_value(s: Seq<u8>)
    ensures
        le_bytes(le_value(s), s.len()) == s,
    decreases s.len(),
{
    if s.len() > 0 {
        let rest = s.drop_first();
        law_bytes_of_value(rest);
        let v = le_value(s);
        assert(v % 256 == s[0] as nat && v / 256 == le_value(rest));
        assert(seq![s[0]] + rest =~= s);
    } else {
        assert(le_bytes(0, 0) =~= s);
    }
}

/// Appends the bytes of a digest.
pub fn push_hash(out: &mut Vec<u8>, hash: &Hash256)
    ensures
        final(out)@ == old(out)@ + hash@,
{
    let ghost start = out@;
    let mut i: usize = 0;
    proof {
        assert(start + hash@.take(0) =~= start);
    }
    while i < 32
        invariant
            i <= 32,
            hash@.len() == 32,
            out@ == start + hash@.take(i as int),
        decreases 32 - i,
    {
        out.push(hash.0[i]);
        proof {
            assert(out@ =~= start + hash@.take(i + 1));
        }
        i = i + 1;
    }
    proof {
        assert(hash@.take(32) =~= hash@);
    }
}

/// The power of 256 with an exponent.
pub open spec fn place_value(i: nat) -> nat
    decreases i,
{
    if i == 0 {
        1
    } else {
        256 * place_value((i - 1) as nat)
    }
}

/// The first byte is the least significant one: the byte at a place is the digit of the
/// value at that place, to the base 256.
pub proof fn law_byte_is_its_digit(s: Seq<u8>, i: nat)
    requires
        i < s.len(),
    ensures
        (le_value(s) / place_value(i)) % 256 == s[i as int] as nat,
    decreases i,
{
    let rest = s.drop_first();
    let v = le_value(rest);
    assert(le_value(s) == s[0] as nat + 256 * v);
    if i == 0 {
        vstd::arithmetic::div_mod::lemma_div_basics(le_value(s) as int);
        assert((s[0] as nat + 256 * v) % 256 == s[0] as nat);
    } else {
        law_byte_is_its_digit(rest, (i - 1) as nat);
        let p = place_value((i - 1) as nat);
        lemma_place_positive((i - 1) as nat);
        assert(place_value(i) == 256 * p);
        assert(le_value(s) / place_value(i) == v / p) by {
            vstd::arithmetic::div_mod::lemma_div_denominator(le_value(s) as int, 256, p as int);
            assert(le_value(s) as int / 256 == v as int);
        }
        assert(rest[i - 1] == s[i as int]);
    }
}

proof fn lemma_place_positive(i: nat)
    ensures
        place_value(i) > 0,
    decreases i,
{
    if i > 0 {
        lemma_place_positive((i - 1) as nat);
    }
}

} // verus!
