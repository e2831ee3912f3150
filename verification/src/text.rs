//! Decimal rendering of unsigned integers, for human-readable forms of
//! timestamps and errors.
use vstd::prelude::*;

verus! {

/// The character for a single decimal digit.
pub open spec fn spec_digit(d: nat) -> char
    recommends
        d < 10,
{
    ((48 + d) as u8) as char
}

/// The decimal digit string of a natural number, most significant digit
/// first, with no leading zeros (a single `'0'` for zero).
pub open spec fn spec_decimal(n: nat) -> Seq<char>
    decreases n,
{
    if n < 10 {
        seq![spec_digit(n)]
    } else {
        spec_decimal(n / 10).push(spec_digit(n % 10))
    }
}

/// Relies on `core::iter::Iterator::collect`: a `String` collected from
/// characters consists of exactly those characters, in order.
#[verifier::external_body]
pub(crate) fn chars_to_string(chars: &Vec<char>) -> (r: String)
    ensures
        r@ == chars@,
{
    chars.iter().collect()
}

/// Renders a 64-bit unsigned integer in decimal.
pub fn u64_to_decimal(n: u64) -> (r: String)
    ensures
        r@ == spec_decimal(n as nat),
{
    let mut low_first: Vec<char> = Vec::new();
    let mut v: u64 = n;
    while v >= 10
        invariant
            spec_decimal(n as nat) == spec_decimal(v as nat) + low_first@.reverse(),
        decreases v,
    {
        let d = ((48 + (v % 10)) as u8) as char;
        proof {
            let tail = low_first@;
            assert(tail.push(d).reverse() =~= seq![d] + tail.reverse());
            assert(spec_decimal((v / 10) as nat).push(spec_digit((v % 10) as nat)) =~= spec_decimal(
                (v / 10) as nat,
            ) + seq![d]);
            assert(spec_decimal((v / 10) as nat) + seq![d] + tail.reverse() =~= spec_decimal(
                (v / 10) as nat,
            ) + (seq![d] + tail.reverse()));
        }
        low_first.push(d);
        v = v / 10;
    }
    let mut out: Vec<char> = Vec::new();
    out.push(((48 + (v % 10)) as u8) as char);
    proof {
        assert(out@ =~= spec_decimal(v as nat));
    }
    let mut i = low_first.len();
    while i > 0
        invariant
            i <= low_first.len(),
            out@ == spec_decimal(v as nat) + low_first@.reverse().take(
                (low_first@.len() - i) as int,
            ),
        decreases i,
    {
        i = i - 1;
        let c = low_first[i];
        proof {
            let rev = low_first@.reverse();
            assert(rev[low_first@.len() - 1 - i] == low_first@[i as int]);
            assert(rev.take(low_first@.len() - i) =~= rev.take((low_first@.len() - i - 1) as int)
                + seq![low_first@[i as int]]);
        }
        out.push(c);
    }
    proof {
        assert(low_first@.reverse().take(low_first@.len() as int) =~= low_first@.reverse());
    }
    chars_to_string(&out)
}

/// Renders a 32-bit unsigned integer in decimal.
pub fn u32_to_decimal(n: u32) -> (r: String)
    ensures
        r@ == spec_decimal(n as nat),
{
    u64_to_decimal(n as u64)
}

/// Renders an 8-bit unsigned integer in decimal.
pub fn u8_to_decimal(n: u8) -> (r: String)
    ensures
        r@ == spec_decimal(n as nat),
{
    u64_to_decimal(n as u64)
}

} // verus!
