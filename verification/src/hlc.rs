//! The hybrid logical clock: a physical clock combined with the logical
//! counter of the timestamps it hands out.
//!
//! The clock keeps a watermark, the largest timestamp it has ever issued or
//! observed. Every timestamp it returns is strictly greater than the
//! watermark it replaces, so timestamps from one clock are strictly
//! increasing; and a remote timestamp can pull the watermark at most a
//! bounded drift ahead of the local physical clock.
use vstd::prelude::*;

verus! {

use crate::clock::Clock;
use crate::clock::Offsetted;
use crate::clock::Offset;
use crate::clock::SysTimeClock;
use crate::clock::MAX_OFFSET;
use crate::clock::spec_clamped_offset;
use crate::serialization::Serialize;
use crate::serialization::Deserialize;
use crate::serialization::radix_val;
use crate::serialization::spec_radix_digits;
use crate::serialization::lemma_spec_radix_digits;
use crate::serialization::lemma_radix_val_order;
use crate::serialization::lemma_radix_val_bound;
use crate::serialization::lemma_pow256;
use crate::serialization::i64_twos_complement;
use crate::clock::spec_i64_from_twos_complement;
use crate::serialization::i64_to_be_bytes;
use crate::serialization::be_bytes_to_i64;
use crate::serialization::u64_to_be_bytes;
use crate::serialization::be_bytes_to_u64;
use crate::timestamp::Timestamp;
use crate::timestamp::lemma_word_fields;
use crate::timestamp::lemma_word_compose;
use vstd::arithmetic::div_mod::lemma_small_mod;
use vstd::arithmetic::power::pow;
use vstd::arithmetic::power2::lemma2_to64;

/// Failures of the hybrid logical clock.
#[derive(Clone, Copy, Debug, PartialEq, Eq, Structural)]
pub enum HLCError {
    /// The logical counter would wrap past 255 within one physical tick.
    Overflow,
    /// A remote timestamp would pull the watermark more than the allowed
    /// drift ahead of the local physical clock.
    DriftExceeded,
}

/// A hybrid logical clock: a physical clock and the watermark, the largest
/// timestamp issued or observed so far.
#[derive(Clone, Copy, Debug, PartialEq, Eq)]
pub struct HLC<C: Clock> {
    /// The monotonic watermark.
    pub last_time: Timestamp,
    /// The physical time source.
    pub clock: C,
}

/// Every timestamp word is its physical-time part plus its counter, and
/// distinct time parts lie at least one counter range apart.
pub proof fn lemma_time_order(a: Timestamp, b: Timestamp)
    ensures
        a.0 == a.spec_time() + a.spec_count(),
        b.0 == b.spec_time() + b.spec_count(),
        a.spec_time() > b.spec_time() ==> a.spec_time() >= b.spec_time() + 0x100,
{
    lemma_word_fields(a.0);
    lemma_word_fields(b.0);
    let qa = a.0 as int / 0x100;
    let qb = b.0 as int / 0x100;
    if qa * 0x100 > qb * 0x100 {
        assert(qa > qb);
    }
}

/// What one local tick does to the watermark: a fresh physical reading
/// past the watermark replaces it; otherwise the counter advances by one,
/// unless it would wrap.
pub open spec fn spec_generate(last: Timestamp, pt: Timestamp) -> Result<Timestamp, HLCError> {
    if pt.spec_time() > last.spec_time() {
        Ok(pt)
    } else if last.spec_count() == 0xFF {
        Err(HLCError::Overflow)
    } else {
        Ok(Timestamp((last.0 + 1) as u64))
    }
}

/// What merging a remote timestamp does to the watermark. A local reading
/// past both sides becomes the new watermark; otherwise the larger time
/// part wins and its counter advances past every counter seen at that
/// time. A winner more than the allowed drift ahead of the local clock is
/// refused, as is a counter that would wrap.
pub open spec fn spec_update(last: Timestamp, msg: Timestamp, local: Timestamp) -> Result<
    Timestamp,
    HLCError,
> {
    if local.spec_time() > last.spec_time() && local.spec_time() > msg.spec_time() {
        Ok(local)
    } else {
        let t = if last.spec_time() >= msg.spec_time() {
            last
        } else {
            msg
        };
        let c = if last.spec_time() == msg.spec_time() {
            if last.spec_count() >= msg.spec_count() {
                last.spec_count() + 1
            } else {
                msg.spec_count() + 1
            }
        } else {
            t.spec_count() + 1
        };
        if t.spec_seconds() - local.spec_seconds() > MAX_OFFSET {
            Err(HLCError::DriftExceeded)
        } else if c > 0xFF {
            Err(HLCError::Overflow)
        } else {
            Ok(Timestamp((t.spec_time() + c) as u64))
        }
    }
}

/// The accepted result of merging a remote timestamp never runs more than
/// the allowed drift ahead of the local physical clock.
pub proof fn lemma_hlc_drift_bound(last: Timestamp, msg: Timestamp, local: Timestamp)
    ensures
        spec_update(last, msg, local) matches Ok(t) ==> t.spec_seconds() - local.spec_seconds()
            <= MAX_OFFSET,
{
    lemma_word_fields(last.0);
    lemma_word_fields(msg.0);
    lemma_word_fields(local.0);
    if local.spec_time() > last.spec_time() && local.spec_time() > msg.spec_time() {
    } else {
        let t = if last.spec_time() >= msg.spec_time() {
            last
        } else {
            msg
        };
        let c = if last.spec_time() == msg.spec_time() {
            if last.spec_count() >= msg.spec_count() {
                last.spec_count() + 1
            } else {
                msg.spec_count() + 1
            }
        } else {
            t.spec_count() + 1
        };
        if t.spec_seconds() - local.spec_seconds() <= MAX_OFFSET && c <= 0xFF {
            lemma_word_fields(t.0);
            lemma_word_compose(t.spec_seconds(), t.spec_fractions(), c);
            assert(Timestamp((t.spec_time() + c) as u64).spec_seconds() == t.spec_seconds());
        }
    }
}

impl<C: Clock> HLC<C> {
    /// A clock over the given time source, with the zero watermark.
    pub fn new(clock: C) -> (r: HLC<C>)
        ensures
            r.last_time.0 == 0,
            r.clock == clock,
    {
        HLC { last_time: Timestamp(0), clock }
    }

    /// Issues a timestamp for a local event. The result is strictly greater
    /// than every timestamp this clock issued or observed before; it is
    /// refused only when the counter would wrap within one physical tick.
    pub fn generate_timestamp(&mut self) -> (r: Result<Timestamp, HLCError>)
        ensures
            exists|pt: Timestamp|
                pt.spec_count() == 0 && #[trigger] spec_generate(old(self).last_time, pt) == r,
            r matches Ok(t) ==> final(self).last_time == t && t.0 > old(self).last_time.0,
            r matches Err(e) ==> final(self).last_time == old(self).last_time && e
                == HLCError::Overflow,
            final(self).clock == old(self).clock,
    {
        let pt = self.clock.poll_time();
        if pt.get_time() > self.last_time.get_time() {
            proof {
                lemma_time_order(pt, self.last_time);
                assert(spec_generate(self.last_time, pt) == Ok::<Timestamp, HLCError>(pt));
            }
            self.last_time = pt;
            Ok(pt)
        } else if self.last_time.get_count() == 0xFF {
            proof {
                assert(spec_generate(self.last_time, pt) == Err::<Timestamp, HLCError>(
                    HLCError::Overflow,
                ));
            }
            Err(HLCError::Overflow)
        } else {
            proof {
                lemma_word_fields(self.last_time.0);
                assert(self.last_time.0 < u64::MAX) by {
                    assert(0xFFFF_FFFF_FFFF_FFFFu64 as int % 0x100 == 0xFF);
                }
            }
            let nt = Timestamp(self.last_time.0 + 1);
            proof {
                assert(spec_generate(self.last_time, pt) == Ok::<Timestamp, HLCError>(nt));
            }
            self.last_time = nt;
            Ok(nt)
        }
    }

    /// Merges the timestamp of a received event into the watermark. The
    /// accepted result is strictly greater than both the old watermark and
    /// the message timestamp; a message that would pull the watermark more
    /// than the allowed drift ahead of the local clock is refused, as is a
    /// counter that would wrap, and the watermark is then unchanged.
    pub fn update_with_timestamp(&mut self, ts: Timestamp) -> (r: Result<Timestamp, HLCError>)
        ensures
            exists|local: Timestamp|
                local.spec_count() == 0 && #[trigger] spec_update(old(self).last_time, ts, local)
                    == r,
            r matches Ok(t) ==> final(self).last_time == t && t.0 > old(self).last_time.0 && t.0
                > ts.0,
            r matches Err(e) ==> final(self).last_time == old(self).last_time,
            final(self).clock == old(self).clock,
    {
        let local = self.clock.poll_time();
        let lt = self.last_time.get_time();
        let mt = ts.get_time();
        let ct = local.get_time();
        proof {
            lemma_time_order(local, self.last_time);
            lemma_time_order(local, ts);
            lemma_time_order(self.last_time, ts);
            lemma_time_order(ts, self.last_time);
        }
        if ct > lt && ct > mt {
            proof {
                assert(spec_update(self.last_time, ts, local) == Ok::<Timestamp, HLCError>(local));
            }
            self.last_time = local;
            Ok(local)
        } else {
            let (t, base_count): (Timestamp, u8) = if lt == mt {
                let lc = self.last_time.get_count();
                let mc = ts.get_count();
                (self.last_time, if lc >= mc {
                    lc
                } else {
                    mc
                })
            } else if lt > mt {
                (self.last_time, self.last_time.get_count())
            } else {
                (ts, ts.get_count())
            };
            let t_seconds = t.get_seconds();
            let local_seconds = local.get_seconds();
            if (t_seconds as i64) - (local_seconds as i64) > MAX_OFFSET {
                proof {
                    assert(spec_update(self.last_time, ts, local) == Err::<Timestamp, HLCError>(
                        HLCError::DriftExceeded,
                    ));
                }
                Err(HLCError::DriftExceeded)
            } else if base_count == 0xFF {
                proof {
                    assert(spec_update(self.last_time, ts, local) == Err::<Timestamp, HLCError>(
                        HLCError::Overflow,
                    ));
                }
                Err(HLCError::Overflow)
            } else {
                proof {
                    lemma_word_fields(t.0);
                }
                let nt = Timestamp(t.get_time() + (base_count as u64) + 1);
                proof {
                    lemma_word_compose(
                        t.spec_seconds(),
                        t.spec_fractions(),
                        base_count as int + 1,
                    );
                    assert(spec_update(self.last_time, ts, local) == Ok::<Timestamp, HLCError>(nt));
                }
                self.last_time = nt;
                Ok(nt)
            }
        }
    }
}

impl<C: Offsetted> HLC<C> {
    /// The offset of the internal clock, in milliseconds.
    pub fn get_offset_millis(&self) -> (r: i64)
        ensures
            r == self.clock.spec_offset(),
    {
        self.clock.get_offset().as_millis()
    }

    /// Sets the offset of the internal clock; a magnitude over the allowed
    /// bound is clamped to the bound.
    pub fn set_offset_millis(&mut self, offset_millis: i64)
        ensures
            final(self).clock.spec_offset() == spec_clamped_offset(offset_millis as int),
            final(self).last_time == old(self).last_time,
    {
        self.clock.set_offset(Offset::from_millis(offset_millis));
    }
}

impl Serialize for HLC<SysTimeClock> {
    open spec fn spec_size() -> nat {
        16
    }

    open spec fn spec_serialize(&self) -> Seq<u8> {
        spec_radix_digits(i64_twos_complement(self.clock.offset.0), 8, 256) + spec_radix_digits(
            self.last_time.0 as nat,
            8,
            256,
        )
    }

    proof fn lemma_serialized_len(&self) {
        lemma_spec_radix_digits(i64_twos_complement(self.clock.offset.0), 8, 256);
        lemma_spec_radix_digits(self.last_time.0 as nat, 8, 256);
    }

    fn serialize(&self) -> (r: Vec<u8>) {
        let mut out = i64_to_be_bytes(self.clock.offset.0);
        let mut ts_bytes = u64_to_be_bytes(self.last_time.0);
        proof {
            lemma_spec_radix_digits(i64_twos_complement(self.clock.offset.0), 8, 256);
            lemma_spec_radix_digits(self.last_time.0 as nat, 8, 256);
            lemma_pow256(8);
            lemma2_to64();
            lemma_small_mod(i64_twos_complement(self.clock.offset.0), pow(256, 8) as nat);
            lemma_small_mod(self.last_time.0 as nat, pow(256, 8) as nat);
            lemma_radix_val_order(
                out@,
                spec_radix_digits(i64_twos_complement(self.clock.offset.0), 8, 256),
                256,
            );
            lemma_radix_val_order(
                ts_bytes@,
                spec_radix_digits(self.last_time.0 as nat, 8, 256),
                256,
            );
        }
        out.append(&mut ts_bytes);
        out
    }
}

impl Deserialize for HLC<SysTimeClock> {
    open spec fn spec_deserialize(encoded: Seq<u8>) -> HLC<SysTimeClock> {
        HLC {
            last_time: Timestamp(radix_val(encoded.skip(8), 256) as u64),
            clock: SysTimeClock {
                offset: Offset(
                    spec_i64_from_twos_complement(radix_val(encoded.take(8), 256)),
                ),
            },
        }
    }

    proof fn lemma_round_trip(&self) {
        lemma_spec_radix_digits(i64_twos_complement(self.clock.offset.0), 8, 256);
        lemma_spec_radix_digits(self.last_time.0 as nat, 8, 256);
        lemma_pow256(8);
        lemma2_to64();
        lemma_small_mod(i64_twos_complement(self.clock.offset.0), pow(256, 8) as nat);
        lemma_small_mod(self.last_time.0 as nat, pow(256, 8) as nat);
        assert(self.spec_serialize().take(8) =~= spec_radix_digits(
            i64_twos_complement(self.clock.offset.0),
            8,
            256,
        ));
        assert(self.spec_serialize().skip(8) =~= spec_radix_digits(
            self.last_time.0 as nat,
            8,
            256,
        ));
    }

    fn deserialize(encoded: &[u8]) -> (r: HLC<SysTimeClock>) {
        let offset_ms = be_bytes_to_i64(&encoded[0..8]);
        let ts_word = be_bytes_to_u64(&encoded[8..16]);
        proof {
            assert(encoded@.subrange(0, 8) =~= encoded@.take(8));
            assert(encoded@.subrange(8, 16) =~= encoded@.skip(8));
            lemma_radix_val_bound(encoded@.take(8), 256);
            lemma_pow256(8);
            lemma2_to64();
        }
        HLC { last_time: Timestamp(ts_word), clock: SysTimeClock { offset: Offset(offset_ms) } }
    }
}

} // verus!
