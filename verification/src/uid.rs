//! 128-bit unique identifiers.
//!
//! An identifier is a uniformly random 128-bit integer. Its string form has
//! 22 characters over a 64-character URL-safe alphabet: the first 21
//! characters carry 6 bits each, most significant first, and the last
//! character carries the remaining 2 bits, so it is one of `-`, `0`, `1`,
//! `2`. The lexicographic order of the string form, and of the 16-byte
//! big-endian binary form, equals the numeric order of the integer.
use vstd::prelude::*;

verus! {

use crate::serialization::Serialize;
use crate::serialization::Deserialize;
use crate::serialization::UID_SIZE;
use crate::serialization::radix_val;
use crate::serialization::digits_below;
use crate::serialization::spec_radix_digits;
use crate::serialization::lemma_spec_radix_digits;
use crate::serialization::lemma_radix_val_order;
use crate::serialization::lemma_radix_val_bound;
use crate::serialization::lemma_pow256;
use crate::serialization::u128_to_be_bytes;
use crate::serialization::be_bytes_to_u128;
use crate::text::chars_to_string;
use vstd::arithmetic::div_mod::lemma_basic_div;
use vstd::arithmetic::div_mod::lemma_div_denominator;
use vstd::arithmetic::div_mod::lemma_div_multiples_vanish;
use vstd::arithmetic::div_mod::lemma_fundamental_div_mod;
use vstd::arithmetic::div_mod::lemma_small_mod;
use vstd::arithmetic::mul::lemma_mul_inequality;
use vstd::arithmetic::mul::lemma_mul_is_commutative;
use vstd::arithmetic::power::pow;
use vstd::arithmetic::power::lemma_pow_multiplies;
use vstd::arithmetic::power2::pow2;
use vstd::arithmetic::power2::lemma_pow2;
use vstd::arithmetic::power2::lemma_pow2_adds;
use vstd::arithmetic::power2::lemma_pow2_pos;
use vstd::arithmetic::power2::lemma2_to64;
use vstd::arithmetic::power2::lemma2_to64_rest;
use crate::serialization::lemma_pow2_to128;

/// Failures of parsing an identifier from its string form.
#[derive(Clone, Copy, Debug, PartialEq, Eq, Structural)]
pub enum UIDParseError {
    /// A character outside the alphabet, or a last character outside the
    /// restricted alphabet.
    CharacterNotAllowed,
    /// The string does not have exactly 22 characters.
    IncorrectLength,
}

/// The alphabet character at a given position: `-`, then the decimal
/// digits, the upper-case letters, `_`, and the lower-case letters, in
/// strictly increasing character order.
pub open spec fn spec_alphabet_char(n: int) -> char
    recommends
        0 <= n < 64,
{
    if n == 0 {
        '-'
    } else if n <= 10 {
        ((47 + n) as u8) as char
    } else if n <= 36 {
        ((54 + n) as u8) as char
    } else if n == 37 {
        '_'
    } else {
        ((59 + n) as u8) as char
    }
}

/// The alphabet position of a character, or nothing when the character is
/// not in the alphabet.
pub open spec fn spec_alphabet_num(c: char) -> Option<u8> {
    let u = c as u32;
    if u == 45 {
        Some(0u8)
    } else if 48 <= u <= 57 {
        Some((u - 47) as u8)
    } else if 65 <= u <= 90 {
        Some((u - 54) as u8)
    } else if u == 95 {
        Some(37u8)
    } else if 97 <= u <= 122 {
        Some((u - 59) as u8)
    } else {
        None
    }
}

/// The alphabet maps positions to strictly increasing characters, and
/// taking a character's position is its inverse.
pub proof fn lemma_alphabet_bijection(n: int)
    requires
        0 <= n < 64,
    ensures
        spec_alphabet_num(spec_alphabet_char(n)) == Some(n as u8),
        forall|m: int|
            0 <= m < n ==> (spec_alphabet_char(m) as u32) < (spec_alphabet_char(n) as u32),
{
}

/// Returns the alphabet character at a position in `0..=63`; a position
/// beyond the alphabet is refused.
pub fn num_to_alphabet_char(n: u8) -> (r: Result<char, UIDParseError>)
    ensures
        n < 64 ==> r == Ok::<char, UIDParseError>(spec_alphabet_char(n as int)),
        n >= 64 ==> r == Err::<char, UIDParseError>(UIDParseError::CharacterNotAllowed),
{
    if n > 63 {
        Err(UIDParseError::CharacterNotAllowed)
    } else if n == 0 {
        Ok('-')
    } else if n <= 10 {
        Ok((47 + n) as char)
    } else if n <= 36 {
        Ok((54 + n) as char)
    } else if n == 37 {
        Ok('_')
    } else {
        Ok((59 + n) as char)
    }
}

/// Returns the position of a character in the alphabet; a character
/// outside the alphabet is refused.
pub fn alphabet_char_to_num(c: char) -> (r: Result<u8, UIDParseError>)
    ensures
        r matches Ok(n) ==> spec_alphabet_num(c) == Some(n),
        r matches Err(e) ==> spec_alphabet_num(c) is None && e
            == UIDParseError::CharacterNotAllowed,
{
    let u = c as u32;
    if u == 45 {
        Ok(0)
    } else if 48 <= u && u <= 57 {
        Ok((u - 47) as u8)
    } else if 65 <= u && u <= 90 {
        Ok((u - 54) as u8)
    } else if u == 95 {
        Ok(37)
    } else if 97 <= u && u <= 122 {
        Ok((u - 59) as u8)
    } else {
        Err(UIDParseError::CharacterNotAllowed)
    }
}

/// A 128-bit unique identifier.
#[derive(Clone, Copy, Debug, Hash, PartialEq, Eq, Structural, Ord)]
pub struct UID(pub u128);

impl PartialOrd for UID {
    /// Identifiers are totally ordered by their 128-bit integers.
    fn partial_cmp(&self, other: &Self) -> (r: Option<core::cmp::Ordering>) {
        if self.0 < other.0 {
            Some(core::cmp::Ordering::Less)
        } else if self.0 == other.0 {
            Some(core::cmp::Ordering::Equal)
        } else {
            Some(core::cmp::Ordering::Greater)
        }
    }
}

impl vstd::std_specs::cmp::PartialOrdSpecImpl for UID {
    open spec fn obeys_partial_cmp_spec() -> bool {
        true
    }

    open spec fn partial_cmp_spec(&self, other: &Self) -> Option<core::cmp::Ordering> {
        if self.0 < other.0 {
            Some(core::cmp::Ordering::Less)
        } else if self.0 == other.0 {
            Some(core::cmp::Ordering::Equal)
        } else {
            Some(core::cmp::Ordering::Greater)
        }
    }
}

/// The 22 six-or-two-bit digits of an identifier: the 21 base-64 digits of
/// its top 126 bits, most significant first, then its lowest 2 bits.
pub open spec fn spec_uid_digits(u: nat) -> Seq<u8> {
    spec_radix_digits(u / 4, 21, 64).push((u % 4) as u8)
}

/// The string form of an identifier: its digits through the alphabet.
pub open spec fn spec_uid_string(u: nat) -> Seq<char> {
    spec_uid_digits(u).map_values(|d: u8| spec_alphabet_char(d as int))
}

/// `64^21` covers the top 126 bits of an identifier.
proof fn lemma_uid_digit_range(u: u128)
    ensures
        (u as nat / 4) < pow(64, 21),
{
    lemma_pow_multiplies(2, 6, 21);
    lemma_pow2(6);
    lemma_pow2(126);
    lemma2_to64();
    lemma_pow2_adds(120, 6);
    lemma_pow2_to128();
    assert(u as nat / 4 < pow2(126)) by {
        vstd::arithmetic::div_mod::lemma_div_is_ordered(u as int, u128::MAX as int, 4);
        assert(u128::MAX as int / 4 < pow2(126));
    }
}

/// Relies on rand::random: draws a fresh value from the thread-local
/// cryptographically secure random number generator.
#[verifier::external_body]
fn random_u128() -> u128 {
    rand::random::<u128>()
}

impl UID {
    /// Draws a new random identifier.
    pub fn new() -> UID {
        UID(random_u128())
    }

    /// A copy of the identifier.
    pub fn get_copy(&self) -> (r: UID)
        ensures
            r == *self,
    {
        *self
    }

    /// The 22 digits of the identifier, most significant first.
    fn digits(&self) -> (r: Vec<u8>)
        ensures
            r@ == spec_uid_digits(self.0 as nat),
    {
        let q: u128 = self.0 / 4;
        let mut out: Vec<u8> = Vec::new();
        let mut d: u128 = 0x100_0000_0000_0000_0000_0000_0000_0000;
        proof {
            lemma2_to64();
            lemma2_to64_rest();
            lemma_pow2_to128();
            lemma_uid_digit_range(self.0);
            lemma_pow_multiplies(2, 6, 21);
            lemma_pow2(126);
            lemma_pow2(6);
            lemma_pow2_adds(120, 6);
            lemma_basic_div(q as int, pow2(126) as int);
        }
        for k in 0..21
            invariant
                out@.len() == k,
                digits_below(out@, 64),
                q == self.0 as nat / 4,
                q < pow2(126),
                radix_val(out@, 64) == q as nat / pow2((6 * (21 - k)) as nat),
                k < 21 ==> d == pow2((6 * (20 - k)) as nat),
        {
            proof {
                lemma_pow2_pos((6 * (20 - k)) as nat);
            }
            let b = ((q / d) % 64) as u8;
            proof {
                let dd = q as int / d as int;
                lemma_pow2_adds((6 * (20 - k)) as nat, 6);
                lemma2_to64();
                lemma_div_denominator(q as int, d as int, 64);
                lemma_fundamental_div_mod(dd, 64);
                assert(out@.push(b).drop_last() =~= out@);
            }
            out.push(b);
            d = d / 64;
            proof {
                if k < 20 {
                    lemma_pow2_adds((6 * (19 - k)) as nat, 6);
                    lemma2_to64();
                    lemma_div_multiples_vanish(pow2((6 * (19 - k)) as nat) as int, 64);
                }
            }
        }
        proof {
            lemma2_to64();
            vstd::arithmetic::div_mod::lemma_div_basics(q as int);
            // The computed digits and the specified digits read back alike,
            // so they are the same sequence.
            lemma_spec_radix_digits(q as nat, 21, 64);
            lemma_pow_multiplies(2, 6, 21);
            lemma_pow2(126);
            lemma_pow2(6);
            lemma_pow2_adds(120, 6);
            lemma_pow2_to128();
            lemma_small_mod(q as nat, pow(64, 21) as nat);
            lemma_radix_val_order(out@, spec_radix_digits(q as nat, 21, 64), 64);
        }
        out.push((self.0 % 4) as u8);
        proof {
            assert(out@ =~= spec_uid_digits(self.0 as nat));
        }
        out
    }

    /// The 22-character string form of the identifier.
    pub fn as_string(&self) -> (r: String)
        ensures
            r@ == spec_uid_string(self.0 as nat),
    {
        let digits = self.digits();
        let mut chars: Vec<char> = Vec::new();
        proof {
            lemma_uid_digit_range(self.0);
            lemma_spec_radix_digits(self.0 as nat / 4, 21, 64);
        }
        for k in 0..22
            invariant
                digits@ == spec_uid_digits(self.0 as nat),
                digits@.len() == 22,
                digits_below(digits@, 64),
                chars@ == digits@.take(k as int).map_values(
                    |d: u8| spec_alphabet_char(d as int),
                ),
        {
            let c = match num_to_alphabet_char(digits[k]) {
                Ok(c) => c,
                Err(_) => '-',
            };
            proof {
                assert(digits@.take(k + 1).map_values(|d: u8| spec_alphabet_char(d as int))
                    =~= digits@.take(k as int).map_values(
                    |d: u8| spec_alphabet_char(d as int),
                ).push(spec_alphabet_char(digits@[k as int] as int)));
            }
            chars.push(c);
        }
        proof {
            assert(digits@.take(22) =~= digits@);
        }
        chars_to_string(&chars)
    }

    /// The identifier as its 16 big-endian bytes.
    pub fn as_byte_string(&self) -> (r: Vec<u8>)
        ensures
            r@ == self.spec_serialize(),
    {
        self.serialize()
    }
}

/// What parsing a 22-character string yields: the identifier it denotes,
/// or the error naming what is wrong with it. A string of the wrong length
/// is refused; then a last character outside `-`, `0`, `1`, `2`; then any
/// character outside the alphabet.
pub open spec fn spec_uid_from_string(s: Seq<char>) -> Result<UID, UIDParseError> {
    if s.len() != 22 {
        Err(UIDParseError::IncorrectLength)
    } else if !(spec_alphabet_num(s[21]) matches Some(d) && d < 4) {
        Err(UIDParseError::CharacterNotAllowed)
    } else if exists|k: int| 0 <= k < 22 && spec_alphabet_num(s[k]) is None {
        Err(UIDParseError::CharacterNotAllowed)
    } else {
        let digits = s.map_values(|c: char| spec_alphabet_num(c).unwrap());
        Ok(
            UID(
                (radix_val(digits.take(21), 64) * 4 + digits[21]) as u128,
            ),
        )
    }
}

impl UID {
    /// Parses an identifier from its 22-character string form.
    pub fn from_string(s: &str) -> (r: Result<UID, UIDParseError>)
        ensures
            r == spec_uid_from_string(s@),
    {
        let len = s.unicode_len();
        if len != 22 {
            return Err(UIDParseError::IncorrectLength);
        }
        let last = s.get_char(21);
        let last_num = match alphabet_char_to_num(last) {
            Ok(n) => n,
            Err(e) => {
                return Err(UIDParseError::CharacterNotAllowed);
            },
        };
        if last_num >= 4 {
            return Err(UIDParseError::CharacterNotAllowed);
        }
        let ghost digits = s@.map_values(|c: char| spec_alphabet_num(c).unwrap());
        let mut acc: u128 = 0;
        proof {
            lemma2_to64();
        }
        for k in 0..21
            invariant
                s@.len() == 22,
                spec_alphabet_num(s@[21]) == Some(last_num),
                last_num < 4,
                digits == s@.map_values(|c: char| spec_alphabet_num(c).unwrap()),
                forall|i: int| 0 <= i < k ==> spec_alphabet_num(s@[i]) is Some,
                acc == radix_val(digits.take(k as int), 64),
                acc < pow2((6 * k) as nat),
        {
            let c = s.get_char(k);
            let num = match alphabet_char_to_num(c) {
                Ok(n) => n,
                Err(e) => {
                    return Err(UIDParseError::CharacterNotAllowed);
                },
            };
            proof {
                assert(digits.take(k + 1).drop_last() =~= digits.take(k as int));
                assert(digits.take(k + 1).last() == digits[k as int]);
                lemma_pow2_adds((6 * k) as nat, 6);
                lemma2_to64();
                lemma2_to64_rest();
                lemma_pow2_to128();
                if k < 20 {
                    vstd::arithmetic::power2::lemma_pow2_strictly_increases(
                        (6 * (k + 1)) as nat,
                        126,
                    );
                }
                lemma_pow2(126);
                lemma_pow2_adds(120, 6);
                lemma_mul_inequality(acc as int, pow2((6 * k) as nat) - 1, 64);
                lemma_mul_is_commutative(pow2((6 * k) as nat) - 1, 64);
            }
            acc = acc * 64 + (num as u128);
        }
        proof {
            lemma_pow2(126);
            lemma_pow2_adds(120, 6);
            lemma_pow2_to128();
            assert forall|k: int| 0 <= k < 22 implies spec_alphabet_num(s@[k]) is Some by {
                if k == 21 {
                    assert(spec_alphabet_num(s@[21]) == Some(last_num));
                }
            }
            assert(digits.take(21).drop_last() =~= digits.take(20));
        }
        let value: u128 = acc * 4 + (last_num as u128);
        proof {
            assert(digits[21] == last_num);
            assert(spec_uid_from_string(s@) == Ok::<UID, UIDParseError>(UID(value)));
        }
        Ok(UID(value))
    }
}

/// Equal-length sequences with the same first element and the same rest
/// are the same sequence.
proof fn lemma_first_rest_eq<T>(a: Seq<T>, b: Seq<T>)
    requires
        a.len() == b.len(),
        a.len() > 0,
        a.first() == b.first(),
        a.drop_first() =~= b.drop_first(),
    ensures
        a =~= b,
{
    assert forall|i: int| 0 <= i < a.len() implies a[i] == b[i] by {
        if i > 0 {
            assert(a.drop_first()[i - 1] == b.drop_first()[i - 1]);
        }
    }
}

/// Strict lexicographic order on equal-length character sequences, by
/// character code.
pub open spec fn lex_lt_chars(a: Seq<char>, b: Seq<char>) -> bool
    decreases a.len(),
{
    if a.len() == 0 || b.len() == 0 {
        false
    } else if a.first() != b.first() {
        (a.first() as u32) < (b.first() as u32)
    } else {
        lex_lt_chars(a.drop_first(), b.drop_first())
    }
}

/// Mapping equal-length digit sequences through the alphabet keeps their
/// lexicographic order and their equality.
proof fn lemma_alphabet_map_order(a: Seq<u8>, b: Seq<u8>)
    requires
        a.len() == b.len(),
        digits_below(a, 64),
        digits_below(b, 64),
    ensures
        lex_lt_chars(
            a.map_values(|d: u8| spec_alphabet_char(d as int)),
            b.map_values(|d: u8| spec_alphabet_char(d as int)),
        ) <==> crate::serialization::lex_lt(a, b),
        a.map_values(|d: u8| spec_alphabet_char(d as int)) == b.map_values(
            |d: u8| spec_alphabet_char(d as int),
        ) <==> a =~= b,
    decreases a.len(),
{
    let f = |d: u8| spec_alphabet_char(d as int);
    let ma = a.map_values(f);
    let mb = b.map_values(f);
    if a.len() == 0 {
        assert(ma =~= mb);
    } else {
        assert(digits_below(a.drop_first(), 64));
        assert(digits_below(b.drop_first(), 64));
        lemma_alphabet_map_order(a.drop_first(), b.drop_first());
        assert(ma.drop_first() =~= a.drop_first().map_values(f));
        assert(mb.drop_first() =~= b.drop_first().map_values(f));
        assert(ma.first() == spec_alphabet_char(a.first() as int));
        assert(mb.first() == spec_alphabet_char(b.first() as int));
        if a.first() != b.first() {
            if a.first() < b.first() {
                lemma_alphabet_bijection(b.first() as int);
            } else {
                lemma_alphabet_bijection(a.first() as int);
            }
            lemma_alphabet_bijection(a.first() as int);
            lemma_alphabet_bijection(b.first() as int);
            assert(ma.first() != mb.first());
            assert(ma != mb);
        } else {
            if a.drop_first() =~= b.drop_first() {
                lemma_first_rest_eq(a, b);
            }
            if ma.drop_first() == mb.drop_first() {
                lemma_first_rest_eq(ma, mb);
            }
            if ma == mb {
                assert(ma.drop_first() == mb.drop_first());
            }
            if a =~= b {
                assert(a.drop_first() =~= b.drop_first());
            }
        }
    }
}

/// Appending one digit to each of two equal-length sequences: the longer
/// sequences order first by the old ones and then by the new digits.
proof fn lemma_lex_lt_push(a: Seq<u8>, b: Seq<u8>, x: u8, y: u8)
    requires
        a.len() == b.len(),
    ensures
        crate::serialization::lex_lt(a.push(x), b.push(y)) <==> (crate::serialization::lex_lt(a, b)
            || (a =~= b && x < y)),
    decreases a.len(),
{
    if a.len() == 0 {
        assert(a.push(x).first() == x);
        assert(b.push(y).first() == y);
        if x != y {
        } else {
            assert(a.push(x).drop_first() =~= Seq::<u8>::empty());
            assert(b.push(y).drop_first() =~= Seq::<u8>::empty());
            assert(!crate::serialization::lex_lt(Seq::<u8>::empty(), Seq::<u8>::empty()));
            assert(!crate::serialization::lex_lt(a.push(x), b.push(y)));
        }
        assert(!crate::serialization::lex_lt(a, b));
        assert(a =~= b);
    } else {
        assert(a.push(x).first() == a.first());
        assert(b.push(y).first() == b.first());
        assert(a.push(x).drop_first() =~= a.drop_first().push(x));
        assert(b.push(y).drop_first() =~= b.drop_first().push(y));
        lemma_lex_lt_push(a.drop_first(), b.drop_first(), x, y);
        if a.first() == b.first() {
            if a.drop_first() =~= b.drop_first() {
                lemma_first_rest_eq(a, b);
            }
            if a =~= b {
                assert(a.drop_first() =~= b.drop_first());
            }
        }
    }
}

/// The numeric order of two identifiers equals the lexicographic order of
/// their digit sequences.
proof fn lemma_uid_digits_order(a: u128, b: u128)
    ensures
        a < b <==> crate::serialization::lex_lt(
            spec_uid_digits(a as nat),
            spec_uid_digits(b as nat),
        ),
        spec_uid_digits(a as nat) =~= spec_uid_digits(b as nat) <==> a == b,
{
    let qa = a as nat / 4;
    let qb = b as nat / 4;
    let da = spec_radix_digits(qa, 21, 64);
    let db = spec_radix_digits(qb, 21, 64);
    lemma_spec_radix_digits(qa, 21, 64);
    lemma_spec_radix_digits(qb, 21, 64);
    lemma_uid_digit_range(a);
    lemma_uid_digit_range(b);
    lemma_small_mod(qa, pow(64, 21) as nat);
    lemma_small_mod(qb, pow(64, 21) as nat);
    lemma_radix_val_order(da, db, 64);
    lemma_lex_lt_push(da, db, (a % 4) as u8, (b % 4) as u8);
    lemma_fundamental_div_mod(a as int, 4);
    lemma_fundamental_div_mod(b as int, 4);
    if spec_uid_digits(a as nat) =~= spec_uid_digits(b as nat) {
        assert(da.push((a % 4) as u8).drop_last() =~= da);
        assert(db.push((b % 4) as u8).drop_last() =~= db);
        assert(da =~= db);
        assert(spec_uid_digits(a as nat).last() == spec_uid_digits(b as nat).last());
        assert(a % 4 == b % 4);
        assert(a == b);
    }
}

/// Parsing the string form of an identifier gives the identifier back.
pub proof fn lemma_uid_string_round_trip(u: UID)
    ensures
        spec_uid_from_string(spec_uid_string(u.0 as nat)) == Ok::<UID, UIDParseError>(u),
{
    let digits = spec_uid_digits(u.0 as nat);
    let s = spec_uid_string(u.0 as nat);
    let q = u.0 as nat / 4;
    lemma_spec_radix_digits(q, 21, 64);
    lemma_uid_digit_range(u.0);
    lemma_small_mod(q, pow(64, 21) as nat);
    assert(digits.len() == 22);
    assert(digits_below(digits, 64)) by {
        assert(forall|k: int|
            0 <= k < 21 ==> digits[k] == spec_radix_digits(q, 21, 64)[k]);
    }
    assert(s.len() == 22);
    assert forall|k: int| 0 <= k < 22 implies spec_alphabet_num(s[k]) == Some(digits[k]) by {
        lemma_alphabet_bijection(digits[k] as int);
    }
    assert(digits[21] == u.0 as nat % 4);
    assert(spec_alphabet_num(s[21]) matches Some(d) && d < 4);
    assert(s.map_values(|c: char| spec_alphabet_num(c).unwrap()) =~= digits);
    assert(digits.take(21) =~= spec_radix_digits(q, 21, 64));
    lemma_fundamental_div_mod(u.0 as int, 4);
    lemma_mul_is_commutative(q as int, 4);
}

/// The numeric order of two identifiers, the lexicographic order of their
/// string forms, and the bytewise order of their binary forms all agree;
/// and equal forms mean equal identifiers.
pub proof fn lemma_uid_order(a: UID, b: UID)
    ensures
        a.0 < b.0 <==> lex_lt_chars(spec_uid_string(a.0 as nat), spec_uid_string(b.0 as nat)),
        a.0 < b.0 <==> crate::serialization::lex_lt(a.spec_serialize(), b.spec_serialize()),
        spec_uid_string(a.0 as nat) == spec_uid_string(b.0 as nat) <==> a == b,
        a.spec_serialize() == b.spec_serialize() <==> a == b,
{
    let da = spec_uid_digits(a.0 as nat);
    let db = spec_uid_digits(b.0 as nat);
    lemma_spec_radix_digits(a.0 as nat / 4, 21, 64);
    lemma_spec_radix_digits(b.0 as nat / 4, 21, 64);
    lemma_uid_digits_order(a.0, b.0);
    assert(digits_below(da, 64) && digits_below(db, 64) && da.len() == db.len() == 22) by {
        assert(forall|k: int|
            0 <= k < 21 ==> da[k] == spec_radix_digits(a.0 as nat / 4, 21, 64)[k]);
        assert(forall|k: int|
            0 <= k < 21 ==> db[k] == spec_radix_digits(b.0 as nat / 4, 21, 64)[k]);
    }
    lemma_alphabet_map_order(da, db);
    if spec_uid_string(a.0 as nat) == spec_uid_string(b.0 as nat) {
        assert(da =~= db);
    }
    // The binary forms follow the numeric order of the 128-bit integers.
    lemma_spec_radix_digits(a.0 as nat, 16, 256);
    lemma_spec_radix_digits(b.0 as nat, 16, 256);
    lemma_pow256(16);
    lemma_pow2_to128();
    lemma_small_mod(a.0 as nat, pow(256, 16) as nat);
    lemma_small_mod(b.0 as nat, pow(256, 16) as nat);
    lemma_radix_val_order(a.spec_serialize(), b.spec_serialize(), 256);
    if a.spec_serialize() == b.spec_serialize() {
        assert(a.spec_serialize() =~= b.spec_serialize());
    }
}

impl Serialize for UID {
    open spec fn spec_size() -> nat {
        UID_SIZE as nat
    }

    open spec fn spec_serialize(&self) -> Seq<u8> {
        spec_radix_digits(self.0 as nat, 16, 256)
    }

    proof fn lemma_serialized_len(&self) {
        lemma_spec_radix_digits(self.0 as nat, 16, 256);
    }

    fn serialize(&self) -> (r: Vec<u8>) {
        let out = u128_to_be_bytes(self.0);
        proof {
            lemma_spec_radix_digits(self.0 as nat, 16, 256);
            lemma_pow256(16);
            lemma_pow2_to128();
            lemma_small_mod(self.0 as nat, pow(256, 16) as nat);
            lemma_radix_val_order(out@, self.spec_serialize(), 256);
        }
        out
    }
}

impl Deserialize for UID {
    open spec fn spec_deserialize(encoded: Seq<u8>) -> UID {
        UID(radix_val(encoded, 256) as u128)
    }

    proof fn lemma_round_trip(&self) {
        lemma_spec_radix_digits(self.0 as nat, 16, 256);
        lemma_pow256(16);
        lemma_pow2_to128();
        lemma_small_mod(self.0 as nat, pow(256, 16) as nat);
    }

    fn deserialize(encoded: &[u8]) -> (r: UID) {
        UID(be_bytes_to_u128(encoded))
    }
}

} // verus!
