//! 64-bit hybrid-logical-clock timestamps.
//!
//! A timestamp packs, most significant bits first, a 32-bit seconds count,
//! the top 24 bits of an NTP fraction-of-a-second field, and an 8-bit
//! logical counter into one 64-bit word. The numeric order of the word is
//! the total order used everywhere: physical time takes precedence over the
//! counter, and the big-endian encoding compares bytewise the same way.
use vstd::prelude::*;

verus! {

use crate::serialization::Serialize;
use crate::serialization::Deserialize;
use crate::serialization::TS_SIZE;
use crate::serialization::radix_val;
use crate::serialization::spec_radix_digits;
use crate::serialization::lemma_spec_radix_digits;
use crate::serialization::lemma_radix_val_order;
use crate::serialization::lemma_pow256;
use crate::serialization::u64_to_be_bytes;
use crate::serialization::be_bytes_to_u64;
use crate::text::spec_decimal;
use crate::text::u64_to_decimal;
use crate::text::u32_to_decimal;
use crate::text::u8_to_decimal;
use vstd::arithmetic::div_mod::lemma_breakdown;
use vstd::arithmetic::div_mod::lemma_div_is_ordered;
use vstd::arithmetic::div_mod::lemma_div_denominator;
use vstd::arithmetic::div_mod::lemma_div_multiples_vanish_fancy;
use vstd::arithmetic::div_mod::lemma_fundamental_div_mod;
use vstd::arithmetic::div_mod::lemma_hoist_over_denominator;
use vstd::arithmetic::div_mod::lemma_mod_multiples_vanish;
use vstd::arithmetic::div_mod::lemma_multiply_divide_lt;
use vstd::arithmetic::div_mod::lemma_small_mod;
use vstd::arithmetic::mul::lemma_mul_is_associative;
use vstd::arithmetic::mul::lemma_mul_is_commutative;
use vstd::arithmetic::mul::lemma_mul_is_distributive_add_other_way;
use vstd::arithmetic::power::pow;
use vstd::arithmetic::power2::lemma2_to64;

/// Largest number of whole seconds a timestamp can carry: the seconds field
/// is 32 bits wide.
pub const DURATION_MAX_SECONDS: u64 = 0xFFFF_FFFF;

/// Failures of timestamp construction and arithmetic.
#[derive(Clone, Copy, Debug, PartialEq, Eq, Structural)]
pub enum TimestampError {
    /// The duration's seconds do not fit in the 32-bit seconds field.
    DurationTooLarge { given_seconds: u64 },
    /// The input is not an RFC3339 timestamp in UTC.
    RfcParseError,
    /// The 8-bit logical counter would wrap past 255.
    CounterOverflow,
}

impl TimestampError {
    /// The human-readable description of the error.
    pub open spec fn spec_message(&self) -> Seq<char> {
        match *self {
            TimestampError::DurationTooLarge { given_seconds } => {
                "The number of seconds in the given duration ("@ + spec_decimal(
                    given_seconds as nat,
                )
                    + ") is too large to fit in a timestamp. Maximum number of seconds allowed: "@
                    + spec_decimal(DURATION_MAX_SECONDS as nat) + "."@
            },
            TimestampError::RfcParseError => {
                "A timestamp could not be parsed from the given string."@
            },
            TimestampError::CounterOverflow => {
                "The counter of the timestamp would overflow."@
            },
        }
    }

    /// Renders the error for display.
    pub fn message(&self) -> (r: String)
        ensures
            r@ == self.spec_message(),
    {
        match *self {
            TimestampError::DurationTooLarge { given_seconds } => {
                let mut out = String::from_str(
                    "The number of seconds in the given duration (",
                );
                out.append(u64_to_decimal(given_seconds).as_str());
                out.append(
                    ") is too large to fit in a timestamp. Maximum number of seconds allowed: ",
                );
                out.append(u64_to_decimal(DURATION_MAX_SECONDS).as_str());
                out.append(".");
                out
            },
            TimestampError::RfcParseError => {
                String::from_str("A timestamp could not be parsed from the given string.")
            },
            TimestampError::CounterOverflow => {
                String::from_str("The counter of the timestamp would overflow.")
            },
        }
    }
}

/// A 64-bit HLC/NTP timestamp: `| seconds (32) | fractions (24) | counter (8) |`.
#[derive(Clone, Copy, Debug, Hash, PartialEq, Eq, Structural)]
pub struct Timestamp(pub u64);

impl Timestamp {
    /// The seconds field: the most significant 32 bits.
    pub open spec fn spec_seconds(self) -> int {
        self.0 as int / 0x1_0000_0000
    }

    /// The fraction field as the middle 24 bits of the word, kept in their
    /// 32-bit position, so the low 8 bits are zero.
    pub open spec fn spec_fractions(self) -> int {
        (self.0 as int % 0x1_0000_0000) / 0x100 * 0x100
    }

    /// The logical counter: the least significant 8 bits.
    pub open spec fn spec_count(self) -> int {
        self.0 as int % 0x100
    }

    /// The physical-time part: the word with the counter bits cleared.
    pub open spec fn spec_time(self) -> int {
        self.0 as int / 0x100 * 0x100
    }

    /// The fraction field converted to whole nanoseconds, rounding down.
    pub open spec fn spec_nanoseconds(self) -> int {
        self.spec_fractions() * 1_000_000_000 / 0x1_0000_0000
    }
}

/// The four parts of a timestamp word: how the word splits into seconds,
/// fractions and counter, with their bounds.
pub proof fn lemma_word_fields(w: u64)
    ensures
        0 <= Timestamp(w).spec_seconds() < 0x1_0000_0000,
        0 <= Timestamp(w).spec_fractions() < 0x1_0000_0000,
        Timestamp(w).spec_fractions() % 0x100 == 0,
        0 <= Timestamp(w).spec_count() < 0x100,
        w == Timestamp(w).spec_seconds() * 0x1_0000_0000 + Timestamp(w).spec_fractions()
            + Timestamp(w).spec_count(),
        Timestamp(w).spec_time() == Timestamp(w).spec_seconds() * 0x1_0000_0000 + Timestamp(
            w,
        ).spec_fractions(),
{
    let x = w as int;
    let s = x / 0x1_0000_0000;
    let rest = x % 0x1_0000_0000;
    lemma_fundamental_div_mod(x, 0x1_0000_0000);
    lemma_multiply_divide_lt(x, 0x1_0000_0000, 0x1_0000_0000);
    lemma_fundamental_div_mod(rest, 0x100);
    assert(rest / 0x100 < 0x100_0000) by {
        lemma_multiply_divide_lt(rest, 0x100, 0x100_0000);
    }
    // The low byte of the word equals the low byte of the 32-bit remainder.
    assert(x % 0x100 == rest % 0x100) by {
        lemma_breakdown(x, 0x100, 0x100_0000);
        lemma_breakdown(x, 0x1_0000_0000, 0x1_0000_0000);
        assert(x % 0x1_0000_0000 == 0x100 * ((x / 0x100) % 0x100_0000) + x % 0x100) by {
            lemma_breakdown(x, 0x100, 0x100_0000);
        }
        lemma_fundamental_div_mod(rest, 0x100);
        lemma_mod_multiples_vanish((x / 0x100) % 0x100_0000, x % 0x100, 0x100);
        vstd::arithmetic::div_mod::lemma_mod_division_less_than_divisor(x, 0x100);
        lemma_small_mod((x % 0x100) as nat, 0x100);
    }
    // The time part is seconds and fractions together.
    assert(x / 0x100 * 0x100 == s * 0x1_0000_0000 + rest / 0x100 * 0x100) by {
        assert(x == 0x100 * (s * 0x100_0000 + rest / 0x100) + x % 0x100) by {
            lemma_mul_is_associative(s, 0x100_0000, 0x100);
            vstd::arithmetic::mul::lemma_mul_is_distributive_add(0x100, s * 0x100_0000, rest / 0x100);
        }
        lemma_div_multiples_vanish_fancy(s * 0x100_0000 + rest / 0x100, x % 0x100, 0x100);
        vstd::arithmetic::mul::lemma_mul_is_distributive_add_other_way(
            0x100,
            s * 0x100_0000,
            rest / 0x100,
        );
        lemma_mul_is_associative(s, 0x100_0000, 0x100);
    }
}

/// Composing a word from its parts: seconds, a fraction field with zero low
/// byte, and a counter read back as the fields of the composed word.
pub proof fn lemma_word_compose(s: int, f: int, c: int)
    requires
        0 <= s < 0x1_0000_0000,
        0 <= f < 0x1_0000_0000,
        f % 0x100 == 0,
        0 <= c < 0x100,
    ensures
        (s * 0x1_0000_0000 + f + c) / 0x1_0000_0000 == s,
        (s * 0x1_0000_0000 + f + c) % 0x1_0000_0000 == f + c,
        (f + c) / 0x100 * 0x100 == f,
        (s * 0x1_0000_0000 + f + c) % 0x100 == c,
{
    let w = s * 0x1_0000_0000 + f + c;
    lemma_mul_is_commutative(s, 0x1_0000_0000);
    lemma_div_multiples_vanish_fancy(s, f + c, 0x1_0000_0000);
    lemma_fundamental_div_mod(w, 0x1_0000_0000);
    // The fraction field is a whole number of 256-units.
    lemma_fundamental_div_mod(f, 0x100);
    let g = f / 0x100;
    lemma_div_multiples_vanish_fancy(g, c, 0x100);
    assert(f + c == 0x100 * g + c);
    // The counter is the low byte of the composed word.
    assert(w == 0x100 * (s * 0x100_0000 + g) + c) by {
        lemma_mul_is_associative(s, 0x100_0000, 0x100);
        lemma_mul_is_commutative(s * 0x100_0000, 0x100);
        vstd::arithmetic::mul::lemma_mul_is_distributive_add(0x100, s * 0x100_0000, g);
    }
    lemma_mod_multiples_vanish(s * 0x100_0000 + g, c, 0x100);
    lemma_small_mod(c as nat, 0x100);
}

impl Timestamp {
    /// Composes a timestamp out of seconds, a 32-bit fraction field whose
    /// low 8 bits are discarded, and a counter.
    pub fn new(seconds: u32, fractions: u32, count: u8) -> (r: Timestamp)
        ensures
            r.0 == seconds * 0x1_0000_0000 + (fractions / 0x100 * 0x100) + count,
            r.spec_seconds() == seconds,
            r.spec_fractions() == fractions / 0x100 * 0x100,
            r.spec_count() == count,
    {
        let f: u64 = (fractions as u64) / 0x100 * 0x100;
        let w: u64 = (seconds as u64) * 0x1_0000_0000 + f + (count as u64);
        proof {
            lemma_multiply_divide_lt(fractions as int, 0x100, 0x100_0000);
            lemma_word_compose(seconds as int, f as int, count as int);
        }
        Timestamp(w)
    }

    /// The timestamp as its underlying 64-bit word.
    pub fn as_u64(&self) -> (r: u64)
        ensures
            r == self.0,
    {
        self.0
    }

    /// The physical-time part of the word: counter bits cleared.
    pub fn get_time(&self) -> (r: u64)
        ensures
            r == self.spec_time(),
    {
        self.0 / 0x100 * 0x100
    }

    /// The seconds field.
    pub fn get_seconds(&self) -> (r: u32)
        ensures
            r == self.spec_seconds(),
    {
        proof {
            lemma_multiply_divide_lt(self.0 as int, 0x1_0000_0000, 0x1_0000_0000);
        }
        (self.0 / 0x1_0000_0000) as u32
    }

    /// The fraction field, in its 32-bit position with a zero low byte.
    pub fn get_fractions(&self) -> (r: u32)
        ensures
            r == self.spec_fractions(),
    {
        proof {
            lemma_multiply_divide_lt(self.0 as int % 0x1_0000_0000, 0x100, 0x100_0000);
        }
        ((self.0 % 0x1_0000_0000) / 0x100 * 0x100) as u32
    }

    /// The logical counter field.
    pub fn get_count(&self) -> (r: u8)
        ensures
            r == self.spec_count(),
    {
        (self.0 % 0x100) as u8
    }

    /// The fraction field as whole nanoseconds; always below one second.
    pub fn get_nanoseconds(&self) -> (r: u32)
        ensures
            r == self.spec_nanoseconds(),
            r < 1_000_000_000,
    {
        let f = self.get_fractions();
        proof {
            lemma_multiply_divide_lt(
                f as int * 1_000_000_000,
                0x1_0000_0000,
                1_000_000_000,
            );
        }
        (((f as u64) * 1_000_000_000) / 0x1_0000_0000) as u32
    }

    /// The timestamp as a duration since the epoch: whole seconds and
    /// nanoseconds below one second.
    pub fn get_duration(&self) -> (r: (u64, u32))
        ensures
            r.0 == self.spec_seconds(),
            r.1 == self.spec_nanoseconds(),
            r.1 < 1_000_000_000,
    {
        (self.get_seconds() as u64, self.get_nanoseconds())
    }

    /// Advances the logical counter by one; refused when the counter would
    /// wrap past 255, leaving the timestamp unchanged.
    pub fn increase_counter(&mut self) -> (r: Result<(), TimestampError>)
        ensures
            old(self).spec_count() < 0xFF ==> r == Ok::<(), TimestampError>(())
                && final(self).0 == old(self).0 + 1,
            old(self).spec_count() == 0xFF ==> r == Err::<(), TimestampError>(
                TimestampError::CounterOverflow,
            ) && final(self).0 == old(self).0,
    {
        if self.0 % 0x100 == 0xFF {
            Err(TimestampError::CounterOverflow)
        } else {
            proof {
                vstd::arithmetic::div_mod::lemma_mod_division_less_than_divisor(
                    self.0 as int,
                    0x100,
                );
                lemma_fundamental_div_mod(self.0 as int, 0x100);
            }
            self.0 = self.0 + 1;
            Ok(())
        }
    }

    /// The sum of two timestamps as 64-bit words.
    pub fn add(self, other: Timestamp) -> (r: Timestamp)
        requires
            self.0 + other.0 <= u64::MAX,
        ensures
            r.0 == self.0 + other.0,
    {
        Timestamp(self.0 + other.0)
    }

    /// The timestamp advanced by a raw 64-bit amount.
    pub fn add_u64(self, other: u64) -> (r: Timestamp)
        requires
            self.0 + other <= u64::MAX,
        ensures
            r.0 == self.0 + other,
    {
        Timestamp(self.0 + other)
    }

    /// The difference of two timestamps as 64-bit words.
    pub fn sub(self, other: Timestamp) -> (r: Timestamp)
        requires
            other.0 <= self.0,
        ensures
            r.0 == self.0 - other.0,
    {
        Timestamp(self.0 - other.0)
    }

    /// The timestamp moved back by a raw 64-bit amount.
    pub fn sub_u64(self, other: u64) -> (r: Timestamp)
        requires
            other <= self.0,
        ensures
            r.0 == self.0 - other,
    {
        Timestamp(self.0 - other)
    }

    /// Renders the timestamp as its three fields in decimal.
    pub fn as_string(&self) -> (r: String)
        ensures
            r@ == "Seconds: "@ + spec_decimal(self.spec_seconds() as nat) + ", Fractions: "@
                + spec_decimal(self.spec_fractions() as nat) + ", Counter: "@ + spec_decimal(
                self.spec_count() as nat,
            ),
    {
        proof {
            lemma_word_fields(self.0);
        }
        let mut out = String::from_str("Seconds: ");
        out.append(u32_to_decimal(self.get_seconds()).as_str());
        out.append(", Fractions: ");
        out.append(u32_to_decimal(self.get_fractions()).as_str());
        out.append(", Counter: ");
        out.append(u8_to_decimal(self.get_count()).as_str());
        out
    }
}

impl Default for Timestamp {
    /// The zero timestamp: zero seconds, fractions and counter.
    fn default() -> (r: Self)
        ensures
            r.0 == 0,
    {
        Timestamp(0)
    }
}

impl PartialOrd for Timestamp {
    /// Timestamps are totally ordered by their 64-bit words.
    fn partial_cmp(&self, other: &Self) -> (r: Option<core::cmp::Ordering>) {
        if self.0 < other.0 {
            Some(core::cmp::Ordering::Less)
        } else if self.0 == other.0 {
            Some(core::cmp::Ordering::Equal)
        } else {
            Some(core::cmp::Ordering::Greater)
        }
    }
}

impl vstd::std_specs::cmp::PartialOrdSpecImpl for Timestamp {
    open spec fn obeys_partial_cmp_spec() -> bool {
        true
    }

    open spec fn partial_cmp_spec(&self, other: &Self) -> Option<core::cmp::Ordering> {
        if self.0 < other.0 {
            Some(core::cmp::Ordering::Less)
        } else if self.0 == other.0 {
            Some(core::cmp::Ordering::Equal)
        } else {
            Some(core::cmp::Ordering::Greater)
        }
    }
}

/// The 32-bit fraction field for a nanosecond count: the fraction is
/// rounded up to the next multiple of 256 so that no precision is silently
/// lost downward. A nanosecond count close to one second rounds up to the
/// full `0x1_0000_0000`, which carries into the seconds field.
pub open spec fn spec_fractions_of_nanos(nanos: int) -> int {
    0x100 * ((nanos * 0x100_0000 + 999_999_999) / 1_000_000_000)
}

/// The timestamp word for a duration of whole seconds and nanoseconds, or
/// nothing when the seconds field cannot hold it.
pub open spec fn spec_from_duration(seconds: int, nanos: int) -> Option<int> {
    let f = spec_fractions_of_nanos(nanos);
    if seconds < DURATION_MAX_SECONDS || (seconds == DURATION_MAX_SECONDS && f
        < 0x1_0000_0000) {
        Some(seconds * 0x1_0000_0000 + f)
    } else {
        None
    }
}

impl Timestamp {
    /// Builds a timestamp from a duration since the epoch, given as whole
    /// seconds and nanoseconds below one second, with a zero counter.
    /// Rejected when the seconds do not fit the 32-bit seconds field.
    pub fn from_duration(seconds: u64, nanoseconds: u32) -> (r: Result<Timestamp, TimestampError>)
        requires
            nanoseconds < 1_000_000_000,
        ensures
            match spec_from_duration(seconds as int, nanoseconds as int) {
                Some(w) => r matches Ok(t) && t.0 == w,
                None => r == Err::<Timestamp, TimestampError>(
                    TimestampError::DurationTooLarge { given_seconds: seconds },
                ),
            },
    {
        let q: u64 = ((nanoseconds as u64) * 0x100_0000 + 999_999_999) / 1_000_000_000;
        proof {
            lemma_multiply_divide_lt(
                nanoseconds as int * 0x100_0000 + 999_999_999,
                1_000_000_000,
                0x100_0001int,
            );
        }
        if seconds < DURATION_MAX_SECONDS || (seconds == DURATION_MAX_SECONDS && q < 0x100_0000) {
            Ok(Timestamp(seconds * 0x1_0000_0000 + q * 0x100))
        } else {
            Err(TimestampError::DurationTooLarge { given_seconds: seconds })
        }
    }
}

/// A timestamp built from a duration reads back as a duration at least as
/// large, and less than 60 nanoseconds larger: the resolution lost to the
/// 24-bit fraction field is below 60 ns.
pub proof fn lemma_timestamp_resolution(seconds: u64, nanos: u32)
    requires
        nanos < 1_000_000_000,
        spec_from_duration(seconds as int, nanos as int) is Some,
    ensures
        ({
            let t = Timestamp(spec_from_duration(seconds as int, nanos as int).unwrap() as u64);
            let back = t.spec_seconds() * 1_000_000_000 + t.spec_nanoseconds();
            let given = seconds * 1_000_000_000 + nanos;
            0 <= back - given < 60
        }),
{
    let f = spec_fractions_of_nanos(nanos as int);
    let q = (nanos * 0x100_0000 + 999_999_999) / 1_000_000_000;
    let w = seconds * 0x1_0000_0000 + f;
    lemma_multiply_divide_lt(
        nanos as int * 0x100_0000 + 999_999_999,
        1_000_000_000,
        0x100_0001int,
    );
    lemma_fundamental_div_mod(nanos * 0x100_0000 + 999_999_999, 1_000_000_000);
    // The rounded fraction covers the nanoseconds: 10^9 q >= 2^24 n.
    assert(1_000_000_000 * q >= nanos * 0x100_0000);
    // And does not overshoot: 10^9 q <= 2^24 n + 10^9 - 1.
    assert(1_000_000_000 * q <= nanos * 0x100_0000 + 999_999_999);
    if f == 0x1_0000_0000 {
        // The fraction carried into the seconds field.
        assert(seconds < DURATION_MAX_SECONDS);
        let t = Timestamp(w as u64);
        lemma_word_compose(seconds as int + 1, 0, 0);
        assert(w == (seconds + 1) * 0x1_0000_0000) by {
            lemma_mul_is_distributive_add_other_way(0x1_0000_0000, seconds as int, 1);
        }
        assert(t.spec_seconds() == seconds + 1);
        assert(t.spec_fractions() == 0);
        // q == 2^24 forces n >= 10^9 - 59.
        assert(nanos * 0x100_0000 >= 0x100_0000 * 1_000_000_000 - 999_999_999);
        assert(nanos >= 999_999_941) by {
            if nanos < 999_999_941 {
                assert(nanos * 0x100_0000 <= 999_999_940 * 0x100_0000) by {
                    vstd::arithmetic::mul::lemma_mul_inequality(
                        nanos as int,
                        999_999_940,
                        0x100_0000,
                    );
                }
            }
        }
    } else {
        assert(q < 0x100_0000);
        lemma_word_compose(seconds as int, f, 0);
        let t = Timestamp(w as u64);
        assert(t.spec_seconds() == seconds);
        assert(t.spec_fractions() == f) by {
            lemma_mod_multiples_vanish(q as int, 0, 0x100);
            vstd::arithmetic::div_mod::lemma_mod_division_less_than_divisor(f, 0x100);
        }
        let back = f * 1_000_000_000 / 0x1_0000_0000;
        // back == q * 10^9 / 2^24.
        assert(back == q * 1_000_000_000 / 0x100_0000) by {
            assert(f * 1_000_000_000 == 0x100 * (q * 1_000_000_000)) by {
                lemma_mul_is_associative(0x100, q as int, 1_000_000_000);
            }
            lemma_div_denominator(f * 1_000_000_000, 0x100, 0x100_0000);
            vstd::arithmetic::div_mod::lemma_div_multiples_vanish(
                q * 1_000_000_000,
                0x100,
            );
        }
        // Lower bound: back >= n.
        assert(back >= nanos) by {
            lemma_div_is_ordered(nanos * 0x100_0000, q * 1_000_000_000, 0x100_0000);
            lemma_mul_is_commutative(q as int, 1_000_000_000);
            vstd::arithmetic::div_mod::lemma_div_multiples_vanish(
                nanos as int,
                0x100_0000,
            );
            lemma_mul_is_commutative(nanos as int, 0x100_0000);
        }
        // Upper bound: back <= n + 59.
        assert(back <= nanos + 59) by {
            lemma_mul_is_commutative(q as int, 1_000_000_000);
            lemma_div_is_ordered(
                q * 1_000_000_000,
                nanos * 0x100_0000 + 999_999_999,
                0x100_0000,
            );
            lemma_hoist_over_denominator(999_999_999, nanos as int, 0x100_0000);
            lemma_mul_is_commutative(nanos as int, 0x100_0000);
        }
    }
}

/// What an RFC3339 string in UTC denotes: the seconds and nanoseconds since
/// the UNIX epoch, or nothing when the string is not a valid timestamp.
pub uninterp spec fn rfc3339_epoch(s: Seq<char>) -> Option<(u64, u32)>;

/// Relies on humantime::parse_rfc3339: parses an RFC3339 timestamp with a
/// UTC offset into whole seconds and nanoseconds since the UNIX epoch,
/// computed from the characters of the input alone; a parsed time is never
/// before the epoch, and its nanoseconds stay below one second.
#[verifier::external_body]
fn parse_rfc3339_epoch(s: &str) -> (r: Option<(u64, u32)>)
    ensures
        r == rfc3339_epoch(s@),
        r matches Some(p) ==> p.1 < 1_000_000_000,
{
    match humantime::parse_rfc3339(s) {
        Ok(t) => match t.duration_since(std::time::UNIX_EPOCH) {
            Ok(d) => Some((d.as_secs(), d.subsec_nanos())),
            Err(_) => None,
        },
        Err(_) => None,
    }
}

impl Timestamp {
    /// Parses an RFC3339 timestamp in UTC into a timestamp with a zero
    /// counter. Rejected when the string does not parse, or when the
    /// denoted time does not fit the 32-bit seconds field.
    pub fn from_rfc3339(s: &str) -> (r: Result<Timestamp, TimestampError>)
        ensures
            match rfc3339_epoch(s@) {
                None => r == Err::<Timestamp, TimestampError>(TimestampError::RfcParseError),
                Some(p) => match spec_from_duration(p.0 as int, p.1 as int) {
                    Some(w) => r matches Ok(t) && t.0 == w,
                    None => r == Err::<Timestamp, TimestampError>(
                        TimestampError::DurationTooLarge { given_seconds: p.0 },
                    ),
                },
            },
    {
        match parse_rfc3339_epoch(s) {
            None => Err(TimestampError::RfcParseError),
            Some((seconds, nanos)) => Timestamp::from_duration(seconds, nanos),
        }
    }
}

impl Serialize for Timestamp {
    open spec fn spec_size() -> nat {
        TS_SIZE as nat
    }

    open spec fn spec_serialize(&self) -> Seq<u8> {
        spec_radix_digits(self.0 as nat, 8, 256)
    }

    proof fn lemma_serialized_len(&self) {
        lemma_spec_radix_digits(self.0 as nat, 8, 256);
    }

    fn serialize(&self) -> (r: Vec<u8>) {
        let out = u64_to_be_bytes(self.0);
        proof {
            lemma_spec_radix_digits(self.0 as nat, 8, 256);
            lemma_pow256(8);
            lemma2_to64();
            lemma_small_mod(self.0 as nat, pow(256, 8) as nat);
            lemma_radix_val_order(out@, self.spec_serialize(), 256);
        }
        out
    }
}

impl Deserialize for Timestamp {
    open spec fn spec_deserialize(encoded: Seq<u8>) -> Timestamp {
        Timestamp(radix_val(encoded, 256) as u64)
    }

    proof fn lemma_round_trip(&self) {
        lemma_spec_radix_digits(self.0 as nat, 8, 256);
        lemma_pow256(8);
        lemma2_to64();
        lemma_small_mod(self.0 as nat, pow(256, 8) as nat);
    }

    fn deserialize(encoded: &[u8]) -> (r: Timestamp) {
        Timestamp(be_bytes_to_u64(encoded))
    }
}

} // verus!
