//! Fixed byte encodings of the scalar values the host keeps in its store,
//! and the decimal rendering used to build dynamic store keys.

use vstd::prelude::*;

verus! {

// ------------------------------------------------------------------
// Fixed-width big-endian integers
// ------------------------------------------------------------------

/// The eight big-endian bytes of a 64-bit value.
pub open spec fn spec_u64_to_be_bytes(x: u64) -> Seq<u8> {
    seq![
        (x >> 56) as u8,
        (x >> 48) as u8,
        (x >> 40) as u8,
        (x >> 32) as u8,
        (x >> 24) as u8,
        (x >> 16) as u8,
        (x >> 8) as u8,
        x as u8,
    ]
}

/// The 64-bit value read from eight big-endian bytes.
pub open spec fn spec_u64_from_be_bytes(s: Seq<u8>) -> u64
    recommends
        s.len() == 8,
{
    (((s[0] as u64) << 56) | ((s[1] as u64) << 48) | ((s[2] as u64) << 40) | ((s[3] as u64) << 32)
        | ((s[4] as u64) << 24) | ((s[5] as u64) << 16) | ((s[6] as u64) << 8) | (s[7] as u64)) as u64
}

/// Reading back the big-endian bytes of a value yields the value.
pub proof fn lemma_u64_be_bytes_roundtrip(x: u64)
    ensures
        spec_u64_from_be_bytes(spec_u64_to_be_bytes(x)) == x,
{
    assert((((((x >> 56) as u8) as u64) << 56) | ((((x >> 48) as u8) as u64) << 48) | ((((x >> 40)
        as u8) as u64) << 40) | ((((x >> 32) as u8) as u64) << 32) | ((((x >> 24) as u8) as u64)
        << 24) | ((((x >> 16) as u8) as u64) << 16) | ((((x >> 8) as u8) as u64) << 8) | ((x
        as u8) as u64)) as u64 == x) by (bit_vector);
}

/// Writing back the value read from eight bytes yields the same bytes.
pub proof fn lemma_u64_be_bytes_complete(s: Seq<u8>)
    requires
        s.len() == 8,
    ensures
        spec_u64_to_be_bytes(spec_u64_from_be_bytes(s)) == s,
{
    let b0 = s[0];
    let b1 = s[1];
    let b2 = s[2];
    let b3 = s[3];
    let b4 = s[4];
    let b5 = s[5];
    let b6 = s[6];
    let b7 = s[7];
    let x = spec_u64_from_be_bytes(s);
    assert((x >> 56) as u8 == b0 && (x >> 48) as u8 == b1 && (x >> 40) as u8 == b2 && (x >> 32)
        as u8 == b3 && (x >> 24) as u8 == b4 && (x >> 16) as u8 == b5 && (x >> 8) as u8 == b6 && x
        as u8 == b7) by (bit_vector)
        requires
            x == (((b0 as u64) << 56) | ((b1 as u64) << 48) | ((b2 as u64) << 40) | ((b3 as u64)
                << 32) | ((b4 as u64) << 24) | ((b5 as u64) << 16) | ((b6 as u64) << 8) | (b7
                as u64)) as u64,
    ;
    assert(spec_u64_to_be_bytes(x) =~= s);
}


/// Renders `x` as eight big-endian bytes.
pub fn u64_to_be_bytes(x: u64) -> (r: Vec<u8>)
    ensures
        r@ == spec_u64_to_be_bytes(x),
{
    let mut v: Vec<u8> = Vec::new();
    v.push((x >> 56) as u8);
    v.push((x >> 48) as u8);
    v.push((x >> 40) as u8);
    v.push((x >> 32) as u8);
    v.push((x >> 24) as u8);
    v.push((x >> 16) as u8);
    v.push((x >> 8) as u8);
    v.push(x as u8);
    proof {
        assert(v@ =~= spec_u64_to_be_bytes(x));
    }
    v
}

/// Reads a 64-bit value from eight big-endian bytes.
pub fn u64_from_be_bytes(s: &[u8]) -> (r: u64)
    requires
        s@.len() == 8,
    ensures
        r == spec_u64_from_be_bytes(s@),
{
    ((s[0] as u64) << 56) | ((s[1] as u64) << 48) | ((s[2] as u64) << 40) | ((s[3] as u64) << 32)
        | ((s[4] as u64) << 24) | ((s[5] as u64) << 16) | ((s[6] as u64) << 8) | (s[7] as u64)
}

/// The four big-endian bytes of a 32-bit value.
pub open spec fn spec_u32_to_be_bytes(x: u32) -> Seq<u8> {
    seq![(x >> 24) as u8, (x >> 16) as u8, (x >> 8) as u8, x as u8]
}

/// The 32-bit value read from four big-endian bytes.
pub open spec fn spec_u32_from_be_bytes(s: Seq<u8>) -> u32
    recommends
        s.len() == 4,
{
    (((s[0] as u32) << 24) | ((s[1] as u32) << 16) | ((s[2] as u32) << 8) | (s[3] as u32)) as u32
}

/// Reading back the big-endian bytes of a value yields the value.
pub proof fn lemma_u32_be_bytes_roundtrip(x: u32)
    ensures
        spec_u32_from_be_bytes(spec_u32_to_be_bytes(x)) == x,
{
    assert((((((x >> 24) as u8) as u32) << 24) | ((((x >> 16) as u8) as u32) << 16) | ((((x >> 8)
        as u8) as u32) << 8) | ((x as u8) as u32)) as u32 == x) by (bit_vector);
}

/// Writing back the value read from four bytes yields the same bytes.
pub proof fn lemma_u32_be_bytes_complete(s: Seq<u8>)
    requires
        s.len() == 4,
    ensures
        spec_u32_to_be_bytes(spec_u32_from_be_bytes(s)) == s,
{
    let b0 = s[0];
    let b1 = s[1];
    let b2 = s[2];
    let b3 = s[3];
    let y = spec_u32_from_be_bytes(s);
    assert((y >> 24) as u8 == b0 && (y >> 16) as u8 == b1 && (y >> 8) as u8 == b2 && y as u8 == b3)
        by (bit_vector)
        requires
            y == (((b0 as u32) << 24) | ((b1 as u32) << 16) | ((b2 as u32) << 8) | (b3
                as u32)) as u32,
    ;
    assert(spec_u32_to_be_bytes(spec_u32_from_be_bytes(s)) =~= s);
}


/// Renders `x` as four big-endian bytes.
pub fn u32_to_be_bytes(x: u32) -> (r: Vec<u8>)
    ensures
        r@ == spec_u32_to_be_bytes(x),
{
    let mut v: Vec<u8> = Vec::new();
    v.push((x >> 24) as u8);
    v.push((x >> 16) as u8);
    v.push((x >> 8) as u8);
    v.push(x as u8);
    proof {
        assert(v@ =~= spec_u32_to_be_bytes(x));
    }
    v
}

/// Reads a 32-bit value from four big-endian bytes.
pub fn u32_from_be_bytes(s: &[u8]) -> (r: u32)
    requires
        s@.len() == 4,
    ensures
        r == spec_u32_from_be_bytes(s@),
{
    ((s[0] as u32) << 24) | ((s[1] as u32) << 16) | ((s[2] as u32) << 8) | (s[3] as u32)
}

// ------------------------------------------------------------------
// Decimal rendering
// ------------------------------------------------------------------

/// The shortest decimal digit string of `n` (most significant digit first).
pub open spec fn spec_dec_nat(n: nat) -> Seq<u8>
    decreases n,
{
    if n < 10 {
        seq![(48 + n) as u8]
    } else {
        spec_dec_nat(n / 10).push((48 + n % 10) as u8)
    }
}

/// The decimal rendering of an integer: a minus sign followed by the digits
/// of its magnitude when negative, the plain digits otherwise.
pub open spec fn spec_dec_int(n: int) -> Seq<u8> {
    if n >= 0 {
        spec_dec_nat(n as nat)
    } else {
        seq![45u8] + spec_dec_nat((-n) as nat)
    }
}

/// The value of a decimal digit string.
pub open spec fn spec_dec_val(s: Seq<u8>) -> nat
    decreases s.len(),
{
    if s.len() == 0 {
        0
    } else {
        spec_dec_val(s.drop_last()) * 10 + (if s.last() >= 48 {
            (s.last() - 48) as nat
        } else {
            0nat
        })
    }
}

/// Every byte of a decimal rendering is an ASCII digit, and the rendering is
/// non-empty.
pub proof fn lemma_dec_nat_digits(n: nat)
    ensures
        spec_dec_nat(n).len() >= 1,
        forall|i: int|
            0 <= i < spec_dec_nat(n).len() ==> 48 <= #[trigger] spec_dec_nat(n)[i] <= 57,
    decreases n,
{
    if n >= 10 {
        lemma_dec_nat_digits(n / 10);
        assert forall|i: int| 0 <= i < spec_dec_nat(n).len() implies 48 <= #[trigger] spec_dec_nat(
            n,
        )[i] <= 57 by {
            if i < spec_dec_nat(n / 10).len() {
                assert(spec_dec_nat(n)[i] == spec_dec_nat(n / 10)[i]);
            }
        }
    }
}

/// The value of the decimal rendering of `n` is `n` itself.
pub proof fn lemma_dec_nat_val(n: nat)
    ensures
        spec_dec_val(spec_dec_nat(n)) == n,
    decreases n,
{
    if n < 10 {
        assert(spec_dec_nat(n).drop_last() =~= Seq::<u8>::empty());
        assert(spec_dec_nat(n).last() == (48 + n) as u8);
        assert(48 + n <= 57);
        assert((48 + n) as u8 == 48 + n);
        assert(spec_dec_val(spec_dec_nat(n)) == spec_dec_val(Seq::<u8>::empty()) * 10 + n);
    } else {
        lemma_dec_nat_val(n / 10);
        assert(spec_dec_nat(n).drop_last() =~= spec_dec_nat(n / 10));
        assert(spec_dec_nat(n).last() == (48 + n % 10) as u8);
        assert(n % 10 < 10) by {
            vstd::arithmetic::div_mod::lemma_mod_bound(n as int, 10);
        }
        assert((48 + n % 10) as u8 == 48 + n % 10);
        assert(spec_dec_val(spec_dec_nat(n)) == (n / 10) * 10 + n % 10);
        assert((n / 10) * 10 + n % 10 == n) by {
            vstd::arithmetic::div_mod::lemma_fundamental_div_mod(n as int, 10);
        }
    }
}

/// Decimal renderings of distinct numbers are distinct.
pub proof fn lemma_dec_nat_injective(a: nat, b: nat)
    ensures
        spec_dec_nat(a) == spec_dec_nat(b) ==> a == b,
{
    if spec_dec_nat(a) == spec_dec_nat(b) {
        lemma_dec_nat_val(a);
        lemma_dec_nat_val(b);
    }
}

/// No byte of an integer's decimal rendering is a path separator.
pub proof fn lemma_dec_int_no_separator(n: int)
    ensures
        spec_dec_int(n).len() >= 1,
        forall|i: int| 0 <= i < spec_dec_int(n).len() ==> #[trigger] spec_dec_int(n)[i] != 47,
{
    if n >= 0 {
        lemma_dec_nat_digits(n as nat);
    } else {
        lemma_dec_nat_digits((-n) as nat);
        assert forall|i: int| 0 <= i < spec_dec_int(n).len() implies #[trigger] spec_dec_int(n)[i]
            != 47 by {
            if i > 0 {
                assert(spec_dec_int(n)[i] == spec_dec_nat((-n) as nat)[i - 1]);
            }
        }
    }
}

/// The first byte of an integer's decimal rendering: a minus sign or a
/// digit.
pub proof fn lemma_dec_int_first_byte(n: int)
    ensures
        spec_dec_int(n).len() >= 1,
        spec_dec_int(n)[0] == 45 || (48 <= spec_dec_int(n)[0] <= 57),
{
    if n >= 0 {
        lemma_dec_nat_digits(n as nat);
    }
}

/// Decimal renderings of distinct integers are distinct.
pub proof fn lemma_dec_int_injective(a: int, b: int)
    ensures
        spec_dec_int(a) == spec_dec_int(b) ==> a == b,
{
    if spec_dec_int(a) == spec_dec_int(b) {
        lemma_dec_nat_digits(if a >= 0 {
            a as nat
        } else {
            (-a) as nat
        });
        lemma_dec_nat_digits(if b >= 0 {
            b as nat
        } else {
            (-b) as nat
        });
        if a >= 0 && b >= 0 {
            lemma_dec_nat_injective(a as nat, b as nat);
        } else if a < 0 && b < 0 {
            assert(spec_dec_int(a)[0] == 45);
            assert(spec_dec_nat((-a) as nat) =~= spec_dec_int(a).skip(1));
            assert(spec_dec_nat((-b) as nat) =~= spec_dec_int(b).skip(1));
            lemma_dec_nat_injective((-a) as nat, (-b) as nat);
        } else if a >= 0 && b < 0 {
            assert(spec_dec_int(a)[0] == spec_dec_nat(a as nat)[0]);
            assert(spec_dec_int(b)[0] == 45);
        } else {
            assert(spec_dec_int(b)[0] == spec_dec_nat(b as nat)[0]);
            assert(spec_dec_int(a)[0] == 45);
        }
    }
}

/// Renders `n` in decimal.
pub fn u64_to_dec(n: u64) -> (r: Vec<u8>)
    ensures
        r@ == spec_dec_nat(n as nat),
    decreases n,
{
    if n < 10 {
        let mut v: Vec<u8> = Vec::new();
        v.push(48 + n as u8);
        proof {
            assert(v@ =~= spec_dec_nat(n as nat));
        }
        v
    } else {
        let mut v = u64_to_dec(n / 10);
        v.push(48 + (n % 10) as u8);
        proof {
            assert(v@ =~= spec_dec_nat(n as nat));
        }
        v
    }
}

/// Renders `n` in decimal, with a leading minus sign when negative.
pub fn i32_to_dec(n: i32) -> (r: Vec<u8>)
    ensures
        r@ == spec_dec_int(n as int),
{
    if n >= 0 {
        u64_to_dec(n as u64)
    } else {
        let magnitude: u64 = (-(n as i64)) as u64;
        let mut v: Vec<u8> = Vec::new();
        v.push(45);
        let digits = u64_to_dec(magnitude);
        let mut i: usize = 0;
        let ghost d = digits@;
        while i < digits.len()
            invariant
                0 <= i <= d.len(),
                digits@ == d,
                v@ == seq![45u8] + d.take(i as int),
            decreases d.len() - i,
        {
            v.push(digits[i]);
            proof {
                assert(seq![45u8] + d.take(i + 1) =~= (seq![45u8] + d.take(i as int)).push(
                    d[i as int],
                ));
            }
            i = i + 1;
        }
        proof {
            assert(d.take(d.len() as int) =~= d);
            assert(v@ =~= spec_dec_int(n as int));
        }
        v
    }
}

// ------------------------------------------------------------------
// Splitting concatenations at a separator
// ------------------------------------------------------------------

/// Whether no byte of `s` is the path separator.
pub open spec fn separator_free(s: Seq<u8>) -> bool {
    forall|i: int| 0 <= i < s.len() ==> #[trigger] s[i] != 47
}

/// A concatenation of a separator-free piece and a separator-led tail splits
/// in only one way.
pub proof fn lemma_separator_split(a: Seq<u8>, t: Seq<u8>, b: Seq<u8>, u: Seq<u8>)
    requires
        separator_free(a),
        separator_free(b),
        t.len() >= 1 && t[0] == 47,
        u.len() >= 1 && u[0] == 47,
        a + t == b + u,
    ensures
        a == b,
        t == u,
{
    if a.len() < b.len() {
        assert((a + t)[a.len() as int] == 47);
        assert((b + u)[a.len() as int] == b[a.len() as int]);
    } else if a.len() > b.len() {
        assert((b + u)[b.len() as int] == 47);
        assert((a + t)[b.len() as int] == a[b.len() as int]);
    }
    assert(a =~= (a + t).take(a.len() as int));
    assert(b =~= (b + u).take(b.len() as int));
    assert(t =~= (a + t).skip(a.len() as int));
    assert(u =~= (b + u).skip(b.len() as int));
}

} // verus!
