//! Fixed-size big-endian serialization.
//!
//! Every value that crosses the wire is encoded as a fixed number of bytes,
//! most significant first, so that the bytewise lexicographic order of two
//! encodings equals the numeric order of the encoded values.
use vstd::prelude::*;

verus! {

use vstd::arithmetic::div_mod::lemma_basic_div;
use vstd::arithmetic::div_mod::lemma_div_denominator;
use vstd::arithmetic::div_mod::lemma_div_multiples_vanish;
use vstd::arithmetic::div_mod::lemma_fundamental_div_mod;
use vstd::arithmetic::mul::lemma_mul_inequality;
use vstd::arithmetic::mul::lemma_mul_is_associative;
use vstd::arithmetic::mul::lemma_mul_is_commutative;
use vstd::arithmetic::mul::lemma_mul_is_distributive_add_other_way;
use vstd::arithmetic::power::pow;
use vstd::arithmetic::power::lemma_pow_multiplies;
use vstd::arithmetic::power::lemma_pow_positive;
use vstd::arithmetic::power2::pow2;
use vstd::arithmetic::power2::lemma_pow2;
use vstd::arithmetic::power2::lemma_pow2_adds;
use vstd::arithmetic::power2::lemma_pow2_pos;
use vstd::arithmetic::power2::lemma_pow2_strictly_increases;
use vstd::arithmetic::power2::lemma2_to64;
use vstd::arithmetic::power2::lemma2_to64_rest;

/// Encoded size of a timestamp, in bytes.
pub const TS_SIZE: usize = 8;

/// Encoded size of a unique identifier, in bytes.
pub const UID_SIZE: usize = 16;

/// Encoded size of a clock offset, in bytes.
pub const OFFSET_SIZE: usize = 8;

/// Encoded size of a boolean, in bytes.
pub const BOOL_SIZE: usize = 1;

/// The value of a digit sequence read in the given base, most significant
/// digit first.
pub open spec fn radix_val(digits: Seq<u8>, base: nat) -> nat
    decreases digits.len(),
{
    if digits.len() == 0 {
        0
    } else {
        radix_val(digits.drop_last(), base) * base + digits.last() as nat
    }
}

/// Every digit of the sequence is below the base.
pub open spec fn digits_below(digits: Seq<u8>, base: nat) -> bool {
    forall|i: int| 0 <= i < digits.len() ==> digits[i] < base
}

/// Strict lexicographic order on equal-length digit sequences.
pub open spec fn lex_lt(a: Seq<u8>, b: Seq<u8>) -> bool
    decreases a.len(),
{
    if a.len() == 0 || b.len() == 0 {
        false
    } else if a.first() != b.first() {
        a.first() < b.first()
    } else {
        lex_lt(a.drop_first(), b.drop_first())
    }
}

/// A digit sequence is worth less than `base` to the power of its length.
pub proof fn lemma_radix_val_bound(digits: Seq<u8>, base: nat)
    requires
        digits_below(digits, base),
        base >= 1,
    ensures
        radix_val(digits, base) < pow(base as int, digits.len()),
    decreases digits.len(),
{
    reveal(pow);
    if digits.len() == 0 {
    } else {
        assert(digits_below(digits.drop_last(), base));
        lemma_radix_val_bound(digits.drop_last(), base);
        let p = pow(base as int, (digits.len() - 1) as nat);
        lemma_pow_positive(base as int, (digits.len() - 1) as nat);
        assert(pow(base as int, digits.len()) == base * p);
        lemma_mul_inequality(radix_val(digits.drop_last(), base) as int, p - 1, base as int);
        lemma_mul_is_commutative(p - 1, base as int);
        vstd::arithmetic::mul::lemma_mul_is_distributive_sub_other_way(base as int, p, 1);
        lemma_mul_is_commutative(base as int, p);
    }
}

/// Reading a digit sequence from the most significant end: the first digit
/// carries `base^(len-1)`, the rest is the value of the remaining digits.
pub proof fn lemma_radix_val_first(digits: Seq<u8>, base: nat)
    requires
        digits.len() > 0,
    ensures
        radix_val(digits, base) == digits.first() * pow(base as int, (digits.len() - 1) as nat)
            + radix_val(digits.drop_first(), base),
    decreases digits.len(),
{
    reveal(pow);
    if digits.len() == 1 {
        assert(radix_val(digits.drop_last(), base) == 0);
        assert(radix_val(digits.drop_first(), base) == 0);
        assert(pow(base as int, 0) == 1);
        vstd::arithmetic::mul::lemma_mul_by_zero_is_zero(base as int);
    } else {
        let head = digits.drop_last();
        lemma_radix_val_first(head, base);
        assert(head.drop_first() =~= digits.drop_first().drop_last());
        assert(head.first() == digits.first());
        assert(digits.drop_first().last() == digits.last());
        let p = pow(base as int, (digits.len() - 2) as nat);
        assert(pow(base as int, (digits.len() - 1) as nat) == base * p);
        assert(radix_val(digits, base) == (digits.first() * p + radix_val(
            digits.drop_first().drop_last(),
            base,
        )) * base + digits.last());
        lemma_mul_is_distributive_add_other_way(
            base as int,
            digits.first() * p,
            radix_val(digits.drop_first().drop_last(), base) as int,
        );
        lemma_mul_is_associative(digits.first() as int, p, base as int);
        lemma_mul_is_commutative(p, base as int);
        lemma_mul_is_commutative(base as int, p);
    }
}

/// On equal-length digit sequences below the base, numeric order and
/// lexicographic order agree, and equal values mean equal digits.
pub proof fn lemma_radix_val_order(a: Seq<u8>, b: Seq<u8>, base: nat)
    requires
        a.len() == b.len(),
        digits_below(a, base),
        digits_below(b, base),
        base >= 1,
    ensures
        radix_val(a, base) < radix_val(b, base) <==> lex_lt(a, b),
        radix_val(a, base) == radix_val(b, base) <==> a =~= b,
    decreases a.len(),
{
    if a.len() == 0 {
    } else {
        lemma_radix_val_first(a, base);
        lemma_radix_val_first(b, base);
        let p = pow(base as int, (a.len() - 1) as nat);
        lemma_pow_positive(base as int, (a.len() - 1) as nat);
        assert(digits_below(a.drop_first(), base));
        assert(digits_below(b.drop_first(), base));
        lemma_radix_val_bound(a.drop_first(), base);
        lemma_radix_val_bound(b.drop_first(), base);
        lemma_radix_val_order(a.drop_first(), b.drop_first(), base);
        if a.first() != b.first() {
            if a.first() < b.first() {
                lemma_mul_inequality(a.first() + 1, b.first() as int, p);
                lemma_mul_is_distributive_add_other_way(p, a.first() as int, 1);
                lemma_mul_is_commutative(a.first() + 1, p);
                lemma_mul_is_commutative(a.first() as int, p);
                lemma_mul_is_commutative(b.first() as int, p);
            } else {
                lemma_mul_inequality(b.first() + 1, a.first() as int, p);
                lemma_mul_is_distributive_add_other_way(p, b.first() as int, 1);
                lemma_mul_is_commutative(b.first() + 1, p);
                lemma_mul_is_commutative(a.first() as int, p);
                lemma_mul_is_commutative(b.first() as int, p);
            }
        } else {
            if radix_val(a.drop_first(), base) == radix_val(b.drop_first(), base) {
                assert(a.drop_first() =~= b.drop_first());
                assert forall|i: int| 0 <= i < a.len() implies a[i] == b[i] by {
                    if i > 0 {
                        assert(a.drop_first()[i - 1] == b.drop_first()[i - 1]);
                    }
                }
                assert(a =~= b);
            }
            if a =~= b {
                assert(a.drop_first() =~= b.drop_first());
            }
        }
    }
}

/// The digit sequence of `x` in the given base, most significant digit
/// first, padded to `len` digits; only the lowest `len` digits of `x` appear.
pub open spec fn spec_radix_digits(x: nat, len: nat, base: nat) -> Seq<u8>
    recommends
        2 <= base <= 256,
    decreases len,
{
    if len == 0 {
        Seq::empty()
    } else {
        spec_radix_digits(x / base, (len - 1) as nat, base).push((x % base) as u8)
    }
}

/// The digit sequence of `x` has the announced length, digits below the
/// base, and reads back as `x` reduced modulo `base^len`.
pub proof fn lemma_spec_radix_digits(x: nat, len: nat, base: nat)
    requires
        2 <= base <= 256,
    ensures
        spec_radix_digits(x, len, base).len() == len,
        digits_below(spec_radix_digits(x, len, base), base),
        radix_val(spec_radix_digits(x, len, base), base) == x % (pow(base as int, len) as nat),
    decreases len,
{
    reveal(pow);
    if len == 0 {
        assert(pow(base as int, 0) == 1);
    } else {
        lemma_spec_radix_digits(x / base, (len - 1) as nat, base);
        let rec = spec_radix_digits(x / base, (len - 1) as nat, base);
        let p = pow(base as int, (len - 1) as nat);
        lemma_pow_positive(base as int, (len - 1) as nat);
        assert(spec_radix_digits(x, len, base).drop_last() =~= rec);
        vstd::arithmetic::div_mod::lemma_breakdown(x as int, base as int, p);
        lemma_mul_is_commutative(base as int, (x as int / base as int) % p);
        lemma_mul_is_commutative(base as int, p);
    }
}

/// `256^e` is `2^(8e)`.
pub proof fn lemma_pow256(e: nat)
    ensures
        pow(256, e) == pow2((8 * e) as nat),
{
    lemma_pow_multiplies(2, 8, e);
    lemma_pow2(8);
    lemma_pow2((8 * e) as nat);
    lemma2_to64();
}

/// The powers of two at byte boundaries above 64 bits, as literals.
pub proof fn lemma_pow2_to128()
    ensures
        pow2(72) == 0x1000000000000000000,
        pow2(80) == 0x100000000000000000000,
        pow2(88) == 0x10000000000000000000000,
        pow2(96) == 0x1000000000000000000000000,
        pow2(104) == 0x100000000000000000000000000,
        pow2(112) == 0x10000000000000000000000000000,
        pow2(120) == 0x1000000000000000000000000000000,
        pow2(128) == 0x100000000000000000000000000000000,
{
    lemma2_to64();
    lemma_pow2_adds(64, 8);
    lemma_pow2_adds(72, 8);
    lemma_pow2_adds(80, 8);
    lemma_pow2_adds(88, 8);
    lemma_pow2_adds(96, 8);
    lemma_pow2_adds(104, 8);
    lemma_pow2_adds(112, 8);
    lemma_pow2_adds(120, 8);
}

/// Big-endian bytes of a 64-bit unsigned integer.
pub fn u64_to_be_bytes(x: u64) -> (r: Vec<u8>)
    ensures
        r@.len() == 8,
        digits_below(r@, 256),
        radix_val(r@, 256) == x,
{
    let mut out: Vec<u8> = Vec::new();
    let mut d: u64 = 0x100_0000_0000_0000;
    proof {
        lemma2_to64();
        lemma2_to64_rest();
        lemma_basic_div(x as int, pow2(64) as int);
    }
    for k in 0..8
        invariant
            out@.len() == k,
            digits_below(out@, 256),
            radix_val(out@, 256) == x as nat / pow2((8 * (8 - k)) as nat),
            k < 8 ==> d == pow2((8 * (7 - k)) as nat),
    {
        proof {
            lemma_pow2_pos((8 * (7 - k)) as nat);
        }
        let b = ((x / d) % 256) as u8;
        proof {
            let q = x as int / d as int;
            lemma_pow2_adds((8 * (7 - k)) as nat, 8);
            lemma2_to64();
            lemma_div_denominator(x as int, d as int, 256);
            lemma_fundamental_div_mod(q, 256);
            assert(out@.push(b).drop_last() =~= out@);
        }
        out.push(b);
        d = d / 256;
        proof {
            if k < 7 {
                lemma_pow2_adds((8 * (6 - k)) as nat, 8);
                lemma2_to64();
                lemma_div_multiples_vanish(pow2((8 * (6 - k)) as nat) as int, 256);
            }
        }
    }
    proof {
        lemma2_to64();
        vstd::arithmetic::div_mod::lemma_div_basics(x as int);
    }
    out
}

/// The 64-bit unsigned integer read from 8 big-endian bytes.
pub fn be_bytes_to_u64(s: &[u8]) -> (r: u64)
    requires
        s@.len() == 8,
    ensures
        r == radix_val(s@, 256),
{
    let mut acc: u64 = 0;
    proof {
        lemma2_to64();
    }
    for i in 0..8
        invariant
            s@.len() == 8,
            acc == radix_val(s@.take(i as int), 256),
            acc < pow2((8 * i) as nat),
    {
        proof {
            assert(s@.take(i + 1).drop_last() =~= s@.take(i as int));
            assert(s@.take(i + 1).last() == s@[i as int]);
            lemma_pow2_adds((8 * i) as nat, 8);
            lemma2_to64();
            if i < 7 {
                lemma_pow2_strictly_increases((8 * (i + 1)) as nat, 64);
            }
            lemma_mul_inequality(acc as int, pow2((8 * i) as nat) - 1, 256);
            lemma_mul_is_commutative(pow2((8 * i) as nat) - 1, 256);
        }
        acc = acc * 256 + (s[i] as u64);
    }
    proof {
        assert(s@.take(8) =~= s@);
    }
    acc
}

/// Big-endian bytes of a 128-bit unsigned integer.
pub fn u128_to_be_bytes(x: u128) -> (r: Vec<u8>)
    ensures
        r@.len() == 16,
        digits_below(r@, 256),
        radix_val(r@, 256) == x,
{
    let mut out: Vec<u8> = Vec::new();
    let mut d: u128 = 0x100_0000_0000_0000_0000_0000_0000_0000;
    proof {
        lemma2_to64();
        lemma2_to64_rest();
        lemma_pow2_to128();
        lemma_basic_div(x as int, pow2(128) as int);
    }
    for k in 0..16
        invariant
            out@.len() == k,
            digits_below(out@, 256),
            radix_val(out@, 256) == x as nat / pow2((8 * (16 - k)) as nat),
            k < 16 ==> d == pow2((8 * (15 - k)) as nat),
    {
        proof {
            lemma_pow2_pos((8 * (15 - k)) as nat);
        }
        let b = ((x / d) % 256) as u8;
        proof {
            let q = x as int / d as int;
            lemma_pow2_adds((8 * (15 - k)) as nat, 8);
            lemma2_to64();
            lemma_div_denominator(x as int, d as int, 256);
            lemma_fundamental_div_mod(q, 256);
            assert(out@.push(b).drop_last() =~= out@);
        }
        out.push(b);
        d = d / 256;
        proof {
            if k < 15 {
                lemma_pow2_adds((8 * (14 - k)) as nat, 8);
                lemma2_to64();
                lemma_div_multiples_vanish(pow2((8 * (14 - k)) as nat) as int, 256);
            }
        }
    }
    proof {
        lemma2_to64();
        vstd::arithmetic::div_mod::lemma_div_basics(x as int);
    }
    out
}

/// The 128-bit unsigned integer read from 16 big-endian bytes.
pub fn be_bytes_to_u128(s: &[u8]) -> (r: u128)
    requires
        s@.len() == 16,
    ensures
        r == radix_val(s@, 256),
{
    let mut acc: u128 = 0;
    proof {
        lemma2_to64();
    }
    for i in 0..16
        invariant
            s@.len() == 16,
            acc == radix_val(s@.take(i as int), 256),
            acc < pow2((8 * i) as nat),
    {
        proof {
            assert(s@.take(i + 1).drop_last() =~= s@.take(i as int));
            assert(s@.take(i + 1).last() == s@[i as int]);
            lemma_pow2_adds((8 * i) as nat, 8);
            lemma2_to64();
            lemma2_to64_rest();
            lemma_pow2_to128();
            if i < 15 {
                lemma_pow2_strictly_increases((8 * (i + 1)) as nat, 128);
            }
            lemma_mul_inequality(acc as int, pow2((8 * i) as nat) - 1, 256);
            lemma_mul_is_commutative(pow2((8 * i) as nat) - 1, 256);
        }
        acc = acc * 256 + (s[i] as u128);
    }
    proof {
        assert(s@.take(16) =~= s@);
    }
    acc
}

/// The two's-complement image of a signed 64-bit value in `0 .. 2^64`.
pub open spec fn i64_twos_complement(v: i64) -> nat {
    if v >= 0 {
        v as nat
    } else {
        (v + 0x1_0000_0000_0000_0000) as nat
    }
}

/// Big-endian two's-complement bytes of a signed 64-bit integer.
pub fn i64_to_be_bytes(v: i64) -> (r: Vec<u8>)
    ensures
        r@.len() == 8,
        digits_below(r@, 256),
        radix_val(r@, 256) == i64_twos_complement(v),
{
    let u: u64 = if v >= 0 {
        v as u64
    } else {
        ((v + 1 + i64::MAX) as u64) + 0x8000_0000_0000_0000
    };
    u64_to_be_bytes(u)
}

/// The signed 64-bit integer read from 8 big-endian two's-complement bytes.
pub fn be_bytes_to_i64(s: &[u8]) -> (r: i64)
    requires
        s@.len() == 8,
    ensures
        i64_twos_complement(r) == radix_val(s@, 256),
{
    proof {
        lemma_radix_val_bound(s@, 256);
        lemma_pow256(8);
        lemma2_to64();
    }
    let u = be_bytes_to_u64(s);
    if u >= 0x8000_0000_0000_0000 {
        ((u - 0x8000_0000_0000_0000) as i64) + i64::MIN
    } else {
        u as i64
    }
}

/// A value with a fixed-size binary encoding.
pub trait Serialize {
    /// The encoded size in bytes; the same for every value of the type.
    spec fn spec_size() -> nat;

    /// The encoding as a mathematical byte sequence.
    spec fn spec_serialize(&self) -> Seq<u8>;

    /// Every encoding has exactly `spec_size` bytes.
    proof fn lemma_serialized_len(&self)
        ensures
            self.spec_serialize().len() == Self::spec_size(),
    ;

    /// Returns the encoded bytes.
    fn serialize(&self) -> (r: Vec<u8>)
        ensures
            r@ == self.spec_serialize(),
    ;
}

/// A value that can be read back from its fixed-size binary encoding.
pub trait Deserialize: Serialize + Sized {
    /// The value an encoding decodes to.
    spec fn spec_deserialize(encoded: Seq<u8>) -> Self;

    /// Decoding is a left inverse of encoding.
    proof fn lemma_round_trip(&self)
        ensures
            Self::spec_deserialize(self.spec_serialize()) == *self,
    ;

    /// Reconstructs a value from its encoded bytes.
    fn deserialize(encoded: &[u8]) -> (r: Self)
        requires
            encoded@.len() == Self::spec_size(),
        ensures
            r == Self::spec_deserialize(encoded@),
    ;
}

impl Serialize for bool {
    open spec fn spec_size() -> nat {
        BOOL_SIZE as nat
    }

    open spec fn spec_serialize(&self) -> Seq<u8> {
        seq![if *self { 1u8 } else { 0u8 }]
    }

    proof fn lemma_serialized_len(&self) {
    }

    fn serialize(&self) -> (r: Vec<u8>) {
        let mut out: Vec<u8> = Vec::new();
        out.push(if *self { 1u8 } else { 0u8 });
        proof {
            assert(out@ =~= self.spec_serialize());
        }
        out
    }
}

impl Deserialize for bool {
    open spec fn spec_deserialize(encoded: Seq<u8>) -> bool {
        encoded[0] != 0
    }

    proof fn lemma_round_trip(&self) {
    }

    fn deserialize(encoded: &[u8]) -> (r: bool) {
        encoded[0] != 0
    }
}

/// Encodes a value and decodes the bytes again; the result is the value
/// given, for every type with a fixed-size codec.
pub fn test_serialization<T: Deserialize>(obj: &T) -> (decoded: T)
    ensures
        decoded == *obj,
{
    proof {
        obj.lemma_serialized_len();
        obj.lemma_round_trip();
    }
    let encoded = obj.serialize();
    T::deserialize(encoded.as_slice())
}

} // verus!
