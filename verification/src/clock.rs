//! Clocks: a millisecond offset, the clock capability, and a system-time
//! clock.
//!
//! A clock polls a wall-clock time source in milliseconds, applies its
//! signed offset, and produces a timestamp with a zero counter.
use vstd::prelude::*;

verus! {

use crate::serialization::Serialize;
use crate::serialization::Deserialize;
use crate::serialization::OFFSET_SIZE;
use crate::serialization::radix_val;
use crate::serialization::spec_radix_digits;
use crate::serialization::lemma_spec_radix_digits;
use crate::serialization::lemma_radix_val_order;
use crate::serialization::lemma_radix_val_bound;
use crate::serialization::lemma_pow256;
use crate::serialization::i64_twos_complement;
use crate::serialization::i64_to_be_bytes;
use crate::serialization::be_bytes_to_i64;
use crate::timestamp::Timestamp;
use vstd::arithmetic::div_mod::lemma_multiply_divide_lt;
use vstd::arithmetic::div_mod::lemma_small_mod;
use vstd::arithmetic::power::pow;
use vstd::arithmetic::power2::lemma2_to64;

/// Largest clock offset, in seconds: one year.
pub const MAX_OFFSET: i64 = 31_556_952;

/// Largest clock offset, in milliseconds.
pub const MAX_OFFSET_MS: i64 = MAX_OFFSET * 1000;

/// A signed clock offset in milliseconds.
#[derive(Clone, Copy, Debug, PartialEq, Eq, Structural)]
pub struct Offset(pub i64);

/// Saturating addition on signed 64-bit values.
pub open spec fn spec_saturating_add_i64(a: int, b: int) -> int {
    if a + b > i64::MAX {
        i64::MAX as int
    } else if a + b < i64::MIN {
        i64::MIN as int
    } else {
        a + b
    }
}

/// An offset clamped to the largest allowed magnitude.
pub open spec fn spec_clamped_offset(ms: int) -> int {
    if ms > MAX_OFFSET_MS {
        MAX_OFFSET_MS as int
    } else if ms < -MAX_OFFSET_MS {
        -MAX_OFFSET_MS as int
    } else {
        ms
    }
}

impl Offset {
    /// The zero offset.
    pub fn zero() -> (r: Offset)
        ensures
            r.0 == 0,
    {
        Offset(0)
    }

    /// An offset of the given number of milliseconds, positive or negative.
    pub fn from_millis(offset_millis: i64) -> (r: Offset)
        ensures
            r.0 == offset_millis,
    {
        Offset(offset_millis)
    }

    /// The offset as milliseconds, positive or negative.
    pub fn as_millis(&self) -> (r: i64)
        ensures
            r == self.0,
    {
        self.0
    }

    /// The sum of two offsets; overflow saturates at the signed bounds.
    pub fn add(self, rhs: Offset) -> (r: Offset)
        ensures
            r.0 == spec_saturating_add_i64(self.0 as int, rhs.0 as int),
    {
        if rhs.0 >= 0 {
            if self.0 > i64::MAX - rhs.0 {
                Offset(i64::MAX)
            } else {
                Offset(self.0 + rhs.0)
            }
        } else {
            if self.0 < i64::MIN - rhs.0 {
                Offset(i64::MIN)
            } else {
                Offset(self.0 + rhs.0)
            }
        }
    }
}

impl Default for Offset {
    /// The zero offset.
    fn default() -> (r: Self)
        ensures
            r.0 == 0,
    {
        Offset(0)
    }
}

impl Serialize for Offset {
    open spec fn spec_size() -> nat {
        OFFSET_SIZE as nat
    }

    open spec fn spec_serialize(&self) -> Seq<u8> {
        spec_radix_digits(i64_twos_complement(self.0), 8, 256)
    }

    proof fn lemma_serialized_len(&self) {
        lemma_spec_radix_digits(i64_twos_complement(self.0), 8, 256);
    }

    fn serialize(&self) -> (r: Vec<u8>) {
        let out = i64_to_be_bytes(self.0);
        proof {
            lemma_spec_radix_digits(i64_twos_complement(self.0), 8, 256);
            lemma_pow256(8);
            lemma2_to64();
            lemma_small_mod(i64_twos_complement(self.0), pow(256, 8) as nat);
            lemma_radix_val_order(out@, self.spec_serialize(), 256);
        }
        out
    }
}

/// The signed value whose two's-complement image a 64-bit word is.
pub open spec fn spec_i64_from_twos_complement(n: nat) -> i64 {
    if n >= 0x8000_0000_0000_0000 {
        (n - 0x1_0000_0000_0000_0000) as i64
    } else {
        n as i64
    }
}

impl Deserialize for Offset {
    open spec fn spec_deserialize(encoded: Seq<u8>) -> Offset {
        Offset(spec_i64_from_twos_complement(radix_val(encoded, 256)))
    }

    proof fn lemma_round_trip(&self) {
        lemma_spec_radix_digits(i64_twos_complement(self.0), 8, 256);
        lemma_pow256(8);
        lemma2_to64();
        lemma_small_mod(i64_twos_complement(self.0), pow(256, 8) as nat);
    }

    fn deserialize(encoded: &[u8]) -> (r: Offset) {
        proof {
            lemma_radix_val_bound(encoded@, 256);
            lemma_pow256(8);
            lemma2_to64();
        }
        Offset(be_bytes_to_i64(encoded))
    }
}

/// The timestamp for a wall-clock reading in milliseconds since the epoch:
/// the seconds saturate at the 32-bit bound, the millisecond remainder
/// becomes the fraction field with its low byte cleared, the counter is
/// zero.
pub open spec fn spec_timestamp_from_ms(ms: int) -> int {
    let s = if ms / 1000 > 0xFFFF_FFFF {
        0xFFFF_FFFF
    } else {
        ms / 1000
    };
    let f = (ms % 1000) * 0x1_0000_0000 / 1000 / 0x100 * 0x100;
    s * 0x1_0000_0000 + f
}

/// Builds the timestamp for a wall-clock reading in milliseconds.
pub fn timestamp_from_ms(ms: u64) -> (r: Timestamp)
    ensures
        r.0 == spec_timestamp_from_ms(ms as int),
        r.spec_count() == 0,
{
    let seconds: u32 = if ms / 1000 > 0xFFFF_FFFF {
        0xFFFF_FFFF
    } else {
        (ms / 1000) as u32
    };
    proof {
        lemma_multiply_divide_lt((ms % 1000) * 0x1_0000_0000, 1000, 0x1_0000_0000);
    }
    let fractions: u32 = (((ms % 1000) * 0x1_0000_0000) / 1000) as u32;
    let t = Timestamp::new(seconds, fractions, 0);
    proof {
        crate::timestamp::lemma_word_compose(
            seconds as int,
            fractions as int / 0x100 * 0x100,
            0,
        );
        lemma_multiply_divide_lt(fractions as int, 0x100, 0x100_0000);
    }
    t
}

/// A clock polls a time source and produces an HLC/NTP timestamp whose
/// counter bits are zero.
pub trait Clock: Sized {
    /// Polls the time source, with the clock's offset applied.
    fn poll_time(&self) -> (r: Timestamp)
        ensures
            r.spec_count() == 0,
    ;
}

/// A clock that keeps a signed offset, applied to every polled time.
pub trait Offsetted: Clock {
    /// The current offset, in milliseconds.
    spec fn spec_offset(&self) -> i64;

    /// Returns the current offset of the clock.
    fn get_offset(&self) -> (r: Offset)
        ensures
            r.0 == self.spec_offset(),
    ;

    /// Sets the offset of the clock without holding it to the allowed
    /// bound.
    fn set_offset_unchecked(&mut self, offset: Offset)
        ensures
            final(self).spec_offset() == offset.0,
    ;

    /// A clock of this kind whose offset is the one given.
    fn from_offset(offset: Offset) -> (r: Self)
        ensures
            r.spec_offset() == offset.0,
    ;

    /// Sets the offset of the clock; a magnitude over the allowed bound is
    /// clamped to the bound, never rejected.
    fn set_offset(&mut self, offset: Offset)
        ensures
            final(self).spec_offset() == spec_clamped_offset(offset.0 as int),
    {
        let clamped = if offset.0 > MAX_OFFSET_MS {
            Offset(MAX_OFFSET_MS)
        } else if offset.0 < -MAX_OFFSET_MS {
            Offset(-MAX_OFFSET_MS)
        } else {
            offset
        };
        self.set_offset_unchecked(clamped);
    }
}

/// Relies on std::time::SystemTime::now: the wall-clock time, returned as
/// whole milliseconds since the UNIX epoch, or nothing when the system
/// clock reads before the epoch.
#[verifier::external_body]
fn system_time_epoch_ms() -> (r: Option<u64>) {
    match std::time::SystemTime::now().duration_since(std::time::UNIX_EPOCH) {
        Ok(d) => Some(d.as_millis() as u64),
        Err(_) => None,
    }
}

/// A clock that reads the system wall-clock.
#[derive(Clone, Copy, Debug, PartialEq, Eq, Structural)]
pub struct SysTimeClock {
    /// The offset applied to every reading, in milliseconds.
    pub offset: Offset,
}

impl Default for SysTimeClock {
    /// A system clock with a zero offset.
    fn default() -> (r: Self)
        ensures
            r.offset.0 == 0,
    {
        SysTimeClock { offset: Offset(0) }
    }
}

impl Clock for SysTimeClock {
    /// Polls the system time and applies the offset; a reading before the
    /// epoch counts as the epoch, and a shifted time is used by its
    /// absolute value.
    fn poll_time(&self) -> (r: Timestamp) {
        let now: u64 = match system_time_epoch_ms() {
            Some(ms) => ms,
            None => 0,
        };
        let shifted: i128 = (now as i128) + (self.offset.0 as i128);
        let ms: u64 = if shifted < 0 {
            if -shifted > u64::MAX as i128 {
                u64::MAX
            } else {
                (-shifted) as u64
            }
        } else {
            if shifted > u64::MAX as i128 {
                u64::MAX
            } else {
                shifted as u64
            }
        };
        timestamp_from_ms(ms)
    }
}

impl Offsetted for SysTimeClock {
    open spec fn spec_offset(&self) -> i64 {
        self.offset.0
    }

    fn get_offset(&self) -> (r: Offset) {
        self.offset
    }

    fn set_offset_unchecked(&mut self, offset: Offset) {
        self.offset = offset;
    }

    fn from_offset(offset: Offset) -> (r: Self) {
        SysTimeClock { offset }
    }
}

/// Polls a clock once: the generic check that a clock type produces a
/// timestamp at all.
pub fn test_clock<T: Clock>(clock: &T) {
    clock.poll_time();
}

/// Exercises an offsetted clock: offsets within the bound are kept as
/// given, offsets beyond it are clamped to the bound, and the clock still
/// polls after each change.
pub fn test_offsetted<T: Offsetted>(clock: &mut T) {
    let neg = Offset::from_millis(-400_000);
    clock.set_offset(neg);
    let got = clock.get_offset();
    assert(got.0 == -400_000);
    clock.poll_time();

    let pos = Offset::from_millis(400_000);
    clock.set_offset(pos);
    let got = clock.get_offset();
    assert(got.0 == 400_000);
    clock.poll_time();

    let neg_too_large = Offset::from_millis(-MAX_OFFSET_MS - 1);
    clock.set_offset(neg_too_large);
    let got = clock.get_offset();
    assert(got.0 == -MAX_OFFSET_MS);
    clock.poll_time();

    let pos_too_large = Offset::from_millis(MAX_OFFSET_MS + 1);
    clock.set_offset(pos_too_large);
    let got = clock.get_offset();
    assert(got.0 == MAX_OFFSET_MS);
    clock.poll_time();
}

} // verus!
