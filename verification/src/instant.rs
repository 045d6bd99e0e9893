//! Instants from seconds.
//!
//! Recorders give the time of a sample as seconds in IEEE 754 double precision. The
//! library takes such a number by its 64 bits and turns it into a count of
//! microseconds, rounded to the nearest, halves away from zero. What is no number, is
//! infinite, or does not fit the count is refused.
//!
//! Instants are compared as microseconds. What a table shows of an instant is the
//! double itself with three decimals, rounded once, halves to the even digit: its
//! stamp.

use vstd::prelude::*;
use vstd::arithmetic::div_mod::{lemma_basic_div, lemma_fundamental_div_mod, lemma_mod_bound};
use vstd::arithmetic::power2::{
    lemma2_to64,
    lemma_pow2_adds,
    lemma_pow2_pos,
    lemma_pow2_strictly_increases,
    lemma_pow2_unfold,
    pow2,
};
use vstd::bits::lemma_u128_shr_is_div;
use crate::text::{thousandths, thousandths_text};

verus! {

/// Two to the power of 52: the weight of the hidden bit of a double.
pub const HIDDEN_BIT: u64 = 0x10_0000_0000_0000;

/// The sign of a double: whether its top bit is set.
pub open spec fn is_negative(bits: u64) -> bool {
    bits >= 0x8000_0000_0000_0000
}

/// The eleven exponent bits of a double.
pub open spec fn exponent_field(bits: u64) -> int {
    (bits as int / 0x10_0000_0000_0000) % 0x800
}

/// The fifty-two fraction bits of a double.
pub open spec fn fraction_field(bits: u64) -> int {
    bits as int % 0x10_0000_0000_0000
}

/// The double is a number and not infinite.
pub open spec fn is_finite(bits: u64) -> bool {
    exponent_field(bits) != 0x7ff
}

/// The significand of a finite double, as a whole number.
pub open spec fn significand(bits: u64) -> int {
    if exponent_field(bits) == 0 {
        fraction_field(bits)
    } else {
        0x10_0000_0000_0000 + fraction_field(bits)
    }
}

/// The power of two by which the significand of a finite double is divided: the size
/// of the double is `significand / 2^scale`. It is negative for the largest doubles.
pub open spec fn scale(bits: u64) -> int {
    if exponent_field(bits) == 0 {
        1074
    } else {
        1075 - exponent_field(bits)
    }
}

/// Two to the power of `k`, and one where `k` is negative.
pub open spec fn pow2_or_one(k: int) -> int {
    if k > 0 {
        pow2(k as nat) as int
    } else {
        1
    }
}

/// `m` microseconds is the size of the finite double, in seconds, rounded to the
/// nearest microsecond, halves upwards: `m - 1/2 <= size * 10^6 < m + 1/2`.
pub open spec fn rounds_to(bits: u64, m: int) -> bool {
    let twice = 2 * significand(bits) * 1_000_000 * pow2_or_one(-scale(bits));
    let unit = pow2_or_one(scale(bits));
    (2 * m - 1) * unit <= twice < (2 * m + 1) * unit
}

/// The double, in seconds, is the instant `v`, in microseconds.
pub open spec fn is_instant(bits: u64, v: int) -> bool {
    &&& is_finite(bits)
    &&& if is_negative(bits) {
        v <= 0 && rounds_to(bits, -v)
    } else {
        v >= 0 && rounds_to(bits, v)
    }
}

/// The double stands for an instant that a count of microseconds can hold.
pub open spec fn is_decodable(bits: u64) -> bool {
    exists|v: i64| is_instant(bits, v as int)
}

/// `m` thousandths is the size of the finite double rounded to the nearest
/// thousandth; a size halfway between two goes to the even one.
pub open spec fn shows_thousandths(bits: u64, m: int) -> bool {
    let twice = 2 * significand(bits) * 1000 * pow2_or_one(-scale(bits));
    let unit = pow2_or_one(scale(bits));
    &&& (2 * m - 1) * unit <= twice <= (2 * m + 1) * unit
    &&& twice == (2 * m - 1) * unit ==> m % 2 == 0
    &&& twice == (2 * m + 1) * unit ==> m % 2 == 0
}

/// `text` is the stamp of the double: the double with three decimals, under the
/// double's own sign.
pub open spec fn is_stamp(bits: u64, text: Seq<char>) -> bool {
    exists|m: nat| shows_thousandths(bits, m as int) && text == thousandths(is_negative(bits), m)
}

/// A double rounds to one count of thousandths only.
pub proof fn lemma_thousandths_unique(bits: u64, m: int, n: int)
    requires
        shows_thousandths(bits, m),
        shows_thousandths(bits, n),
    ensures
        m == n,
{
    let unit = pow2_or_one(scale(bits));
    if scale(bits) > 0 {
        lemma_pow2_pos(scale(bits) as nat);
    }
    assert(unit > 0);
    if m < n {
        assert((2 * m + 1) * unit <= (2 * n - 1) * unit) by (nonlinear_arith)
            requires
                m < n,
                unit > 0,
        ;
        assert((2 * m + 1) * unit == (2 * n - 1) * unit);
        assert(2 * m + 1 == 2 * n - 1) by (nonlinear_arith)
            requires
                (2 * m + 1) * unit == (2 * n - 1) * unit,
                unit > 0,
        ;
    } else if n < m {
        assert((2 * n + 1) * unit <= (2 * m - 1) * unit) by (nonlinear_arith)
            requires
                n < m,
                unit > 0,
        ;
        assert((2 * n + 1) * unit == (2 * m - 1) * unit);
        assert(2 * n + 1 == 2 * m - 1) by (nonlinear_arith)
            requires
                (2 * n + 1) * unit == (2 * m - 1) * unit,
                unit > 0,
        ;
    }
}

/// A double has one stamp only.
pub proof fn lemma_stamp_unique(bits: u64, a: Seq<char>, b: Seq<char>)
    requires
        is_stamp(bits, a),
        is_stamp(bits, b),
    ensures
        a == b,
{
    let m = choose|m: nat| shows_thousandths(bits, m as int) && a == thousandths(is_negative(bits), m);
    let n = choose|n: nat| shows_thousandths(bits, n as int) && b == thousandths(is_negative(bits), n);
    lemma_thousandths_unique(bits, m as int, n as int);
}

/// A finite double of two to the power of 52 or more stands for no instant.
proof fn lemma_large_is_undecodable(bits: u64)
    requires
        is_finite(bits),
        scale(bits) <= 0,
    ensures
        forall|m: int| rounds_to(bits, m) ==> m > 0x8000_0000_0000_0000,
        !is_decodable(bits),
{
    let k = scale(bits);
    let up = pow2_or_one(-k);
    if -k > 0 {
        lemma_pow2_pos((-k) as nat);
    }
    assert(up >= 1);
    let s = significand(bits);
    assert(s >= 0x10_0000_0000_0000);
    assert(2 * s * 1_000_000 * up >= 2 * 0x10_0000_0000_0000 * 1_000_000) by (nonlinear_arith)
        requires
            s >= 0x10_0000_0000_0000,
            up >= 1,
    ;
}

/// A double rounds to one count of microseconds only.
proof fn lemma_rounding_unique(bits: u64, m: int, n: int)
    requires
        rounds_to(bits, m),
        rounds_to(bits, n),
    ensures
        m == n,
{
    let unit = pow2_or_one(scale(bits));
    if scale(bits) > 0 {
        lemma_pow2_pos(scale(bits) as nat);
    }
    assert(unit > 0);
    if m < n {
        assert((2 * m + 1) * unit <= (2 * n - 1) * unit) by (nonlinear_arith)
            requires
                m < n,
                unit > 0,
        ;
    } else if n < m {
        assert((2 * n + 1) * unit <= (2 * m - 1) * unit) by (nonlinear_arith)
            requires
                n < m,
                unit > 0,
        ;
    }
}

/// A double is one instant at most.
pub proof fn lemma_instant_unique(bits: u64, v: int, w: int)
    requires
        is_instant(bits, v),
        is_instant(bits, w),
    ensures
        v == w,
{
    if is_negative(bits) {
        lemma_rounding_unique(bits, -v, -w);
    } else {
        lemma_rounding_unique(bits, v, w);
    }
}

/// The size of a double in microseconds, rounded: nothing where the double is not
/// finite or its size is beyond any count that the library holds.
fn magnitude(bits: u64) -> (r: Option<u128>)
    ensures
        match r {
            Some(m) => is_finite(bits) && rounds_to(bits, m as int),
            None => !is_finite(bits) || forall|m: int| rounds_to(bits, m) ==> m > 0x8000_0000_0000_0000,
        },
{
    let exponent: u64 = (bits / HIDDEN_BIT) % 0x800;
    let fraction: u64 = bits % HIDDEN_BIT;
    if exponent == 0x7ff {
        return None;
    }
    if exponent >= 1075 {
        proof {
            lemma_large_is_undecodable(bits);
        }
        return None;
    }
    let whole: u64 = if exponent == 0 {
        fraction
    } else {
        HIDDEN_BIT + fraction
    };
    let k: u64 = if exponent == 0 {
        1074
    } else {
        1075 - exponent
    };
    let scaled: u128 = whole as u128 * 1_000_000;
    let half: u64 = k - 1;
    let ghost unit_half = pow2(half as nat) as int;
    proof {
        lemma_pow2_pos(half as nat);
        lemma_pow2_unfold(k as nat);
    }
    let q: u128 = if half >= 74 {
        proof {
            lemma2_to64();
            lemma_pow2_adds(64, 10);
            if half > 74 {
                lemma_pow2_strictly_increases(74, half as nat);
            }
            assert(scaled < unit_half);
            lemma_basic_div(scaled as int, unit_half);
        }
        0
    } else {
        proof {
            lemma_u128_shr_is_div(scaled, half as u128);
        }
        scaled >> (half as u128)
    };
    assert(q == scaled as int / unit_half);
    let m: u128 = (q + 1) / 2;
    proof {
        lemma_fundamental_div_mod(scaled as int, unit_half);
        lemma_mod_bound(scaled as int, unit_half);
        let r = scaled as int % unit_half;
        assert(scaled == unit_half * q + r);
        assert(2 * m - 1 <= q <= 2 * m);
        assert((2 * m - 1) * unit_half <= q * unit_half) by (nonlinear_arith)
            requires
                2 * m - 1 <= q,
                unit_half > 0,
        ;
        assert((q + 1) * unit_half <= (2 * m + 1) * unit_half) by (nonlinear_arith)
            requires
                q <= 2 * m,
                unit_half > 0,
        ;
        assert(unit_half * q + unit_half == (q + 1) * unit_half) by (nonlinear_arith);
        assert(unit_half * q == q * unit_half) by (nonlinear_arith);
        let unit = pow2_or_one(scale(bits));
        assert(unit == 2 * unit_half);
        assert(pow2_or_one(-scale(bits)) == 1);
        assert((2 * m - 1) * unit == 2 * ((2 * m - 1) * unit_half)) by (nonlinear_arith)
            requires
                unit == 2 * unit_half,
        ;
        assert((2 * m + 1) * unit == 2 * ((2 * m + 1) * unit_half)) by (nonlinear_arith)
            requires
                unit == 2 * unit_half,
        ;
        assert(2 * significand(bits) * 1_000_000 * 1 == 2 * scaled);
    }
    Some(m)
}

/// Turns seconds, given as the bits of a double, into an instant in microseconds.
pub fn micros_from_seconds(bits: u64) -> (r: Option<i64>)
    ensures
        r is Some <==> is_decodable(bits),
        r matches Some(v) ==> is_instant(bits, v as int),
{
    let negative: bool = bits >= 0x8000_0000_0000_0000;
    match magnitude(bits) {
        Some(m) => {
            if negative && m <= 0x8000_0000_0000_0000 {
                let v: i64 = (-(m as i128)) as i64;
                assert(is_instant(bits, v as int));
                Some(v)
            } else if !negative && m <= 0x7fff_ffff_ffff_ffff {
                let v: i64 = m as i64;
                assert(is_instant(bits, v as int));
                Some(v)
            } else {
                proof {
                    assert forall|v: i64| !is_instant(bits, v as int) by {
                        if is_instant(bits, v as int) {
                            if negative {
                                lemma_rounding_unique(bits, m as int, -(v as int));
                            } else {
                                lemma_rounding_unique(bits, m as int, v as int);
                            }
                        }
                    }
                }
                None
            }
        },
        None => {
            None
        },
    }
}

/// Two to the power of `e`.
fn power_of_two(e: u64) -> (p: u128)
    requires
        e < 64,
    ensures
        p == pow2(e as nat),
        p > 0,
{
    let mut p: u128 = 1;
    let mut i: u64 = 0;
    proof {
        lemma2_to64();
    }
    while i < e
        invariant
            i <= e < 64,
            p == pow2(i as nat),
            p > 0,
            pow2(64) == 0x1_0000_0000_0000_0000,
        decreases e - i,
    {
        proof {
            lemma_pow2_unfold((i + 1) as nat);
            lemma_pow2_strictly_increases((i + 1) as nat, 64);
        }
        p = p * 2;
        i += 1;
    }
    p
}

/// The size of a double in thousandths, rounded halves to even: nothing where the
/// double is not finite or is two to the power of 52 or more.
fn thousandths_of(bits: u64) -> (r: Option<u64>)
    ensures
        r is Some <==> is_finite(bits) && scale(bits) >= 1,
        r matches Some(m) ==> shows_thousandths(bits, m as int),
{
    let exponent: u64 = (bits / HIDDEN_BIT) % 0x800;
    let fraction: u64 = bits % HIDDEN_BIT;
    if exponent == 0x7ff || exponent >= 1075 {
        return None;
    }
    let whole: u64 = if exponent == 0 {
        fraction
    } else {
        HIDDEN_BIT + fraction
    };
    let k: u64 = if exponent == 0 {
        1074
    } else {
        1075 - exponent
    };
    let scaled: u128 = whole as u128 * 1000;
    let half: u64 = k - 1;
    let ghost unit_half = pow2(half as nat) as int;
    let ghost unit = pow2_or_one(scale(bits));
    proof {
        lemma_pow2_pos(half as nat);
        lemma_pow2_unfold(k as nat);
        assert(unit == 2 * unit_half);
        assert(pow2_or_one(-scale(bits)) == 1);
        assert(2 * significand(bits) * 1000 * 1 == 2 * scaled);
    }
    if half >= 64 {
        proof {
            lemma2_to64();
            if half > 64 {
                lemma_pow2_strictly_increases(64, half as nat);
            }
            assert(scaled < unit_half);
            assert((2 * 0 - 1) * unit <= 2 * scaled) by (nonlinear_arith)
                requires
                    unit > 0,
                    scaled >= 0,
            ;
            assert((2 * 0 + 1) * unit == unit) by (nonlinear_arith);
        }
        return Some(0);
    }
    let p: u128 = power_of_two(half);
    let q: u128 = scaled / p;
    let rest: u128 = scaled % p;
    proof {
        lemma_fundamental_div_mod(scaled as int, unit_half);
        lemma_mod_bound(scaled as int, unit_half);
        assert(scaled == unit_half * q + rest);
        assert(unit_half * q == q * unit_half) by (nonlinear_arith);
    }
    let m: u128 = if q % 2 == 0 {
        q / 2
    } else if rest == 0 && (q / 2) % 2 == 0 {
        q / 2
    } else {
        q / 2 + 1
    };
    proof {
        let mi = m as int;
        let qi = q as int;
        let ri = rest as int;
        // In halves of the unit: the size is `q` halves and a rest below one half.
        assert((2 * mi - 1) * unit == (2 * mi - 1) * 2 * unit_half) by (nonlinear_arith)
            requires
                unit == 2 * unit_half,
        ;
        assert((2 * mi + 1) * unit == (2 * mi + 1) * 2 * unit_half) by (nonlinear_arith)
            requires
                unit == 2 * unit_half,
        ;
        assert(2 * scaled == 2 * qi * unit_half + 2 * ri) by (nonlinear_arith)
            requires
                scaled == qi * unit_half + ri,
        ;
        if qi % 2 == 0 {
            assert(qi == 2 * mi);
            assert((2 * mi - 1) * 2 * unit_half < 2 * qi * unit_half) by (nonlinear_arith)
                requires
                    qi == 2 * mi,
                    unit_half > 0,
            ;
            assert(2 * qi * unit_half + 2 * ri < (2 * mi + 1) * 2 * unit_half) by (nonlinear_arith)
                requires
                    qi == 2 * mi,
                    0 <= ri < unit_half,
            ;
        } else if ri == 0 && (qi / 2) % 2 == 0 {
            assert(qi == 2 * mi + 1);
            assert(2 * qi * unit_half + 2 * ri == (2 * mi + 1) * 2 * unit_half) by (nonlinear_arith)
                requires
                    qi == 2 * mi + 1,
                    ri == 0,
            ;
            assert((2 * mi - 1) * 2 * unit_half < (2 * mi + 1) * 2 * unit_half) by (nonlinear_arith)
                requires
                    unit_half > 0,
            ;
        } else {
            assert(qi == 2 * mi - 1);
            assert(2 * qi * unit_half + 2 * ri >= (2 * mi - 1) * 2 * unit_half) by (nonlinear_arith)
                requires
                    qi == 2 * mi - 1,
                    ri >= 0,
            ;
            assert(2 * qi * unit_half + 2 * ri < (2 * mi + 1) * 2 * unit_half) by (nonlinear_arith)
                requires
                    qi == 2 * mi - 1,
                    0 <= ri < unit_half,
                    unit_half > 0,
            ;
            if ri == 0 {
                assert(mi % 2 == 0);
            } else {
                assert(2 * qi * unit_half + 2 * ri > (2 * mi - 1) * 2 * unit_half) by (nonlinear_arith)
                    requires
                        qi == 2 * mi - 1,
                        ri > 0,
                ;
            }
        }
        assert(shows_thousandths(bits, mi));
    }
    assert(m <= scaled);
    Some(m as u64)
}

/// The stamp of seconds given as the bits of a double: the double with three
/// decimals. Only an instant has a stamp.
pub fn stamp_from_seconds(bits: u64) -> (r: Option<String>)
    ensures
        r is Some <==> is_decodable(bits),
        r matches Some(text) ==> is_stamp(bits, text@),
{
    let negative: bool = bits >= 0x8000_0000_0000_0000;
    if micros_from_seconds(bits).is_none() {
        return None;
    }
    match thousandths_of(bits) {
        Some(m) => {
            let text: String = thousandths_text(negative, m);
            assert(shows_thousandths(bits, m as nat as int));
            Some(text)
        },
        None => {
            proof {
                let v = choose|v: i64| is_instant(bits, v as int);
                lemma_large_is_undecodable(bits);
            }
            None
        },
    }
}

/// `times` holds the instant of each of `seconds`, in order.
pub open spec fn decoded(seconds: Seq<u64>, times: Seq<i64>) -> bool {
    &&& times.len() == seconds.len()
    &&& forall|i: int| 0 <= i < seconds.len() ==> is_instant(seconds[i], #[trigger] times[i] as int)
}

/// `stamps` holds the stamp of each of `seconds`, in order.
pub open spec fn stamped(seconds: Seq<u64>, stamps: Seq<Seq<char>>) -> bool {
    &&& stamps.len() == seconds.len()
    &&& forall|i: int| 0 <= i < seconds.len() ==> is_stamp(seconds[i], #[trigger] stamps[i])
}

/// Entry `i` is the first of `seconds` that stands for no instant.
pub open spec fn first_invalid(seconds: Seq<u64>, i: int) -> bool {
    &&& 0 <= i < seconds.len()
    &&& !is_decodable(seconds[i])
    &&& forall|j: int| 0 <= j < i ==> is_decodable(#[trigger] seconds[j])
}

/// Every entry of `seconds` stands for an instant.
pub open spec fn all_decodable(seconds: Seq<u64>) -> bool {
    forall|i: int| 0 <= i < seconds.len() ==> is_decodable(#[trigger] seconds[i])
}

/// Turns a series of seconds into instants, or names the first entry that is none.
pub fn decode_instants(seconds: &Vec<u64>) -> (r: Result<Vec<i64>, usize>)
    ensures
        r is Ok <==> all_decodable(seconds@),
        r matches Ok(times) ==> decoded(seconds@, times@),
        r matches Err(i) ==> first_invalid(seconds@, i as int),
{
    let mut times: Vec<i64> = Vec::new();
    let mut i: usize = 0;
    while i < seconds.len()
        invariant
            i <= seconds.len(),
            times.len() == i,
            forall|j: int| 0 <= j < i ==> is_instant(seconds[j], #[trigger] times[j] as int),
            forall|j: int| 0 <= j < i ==> is_decodable(#[trigger] seconds[j]),
        decreases seconds.len() - i,
    {
        match micros_from_seconds(seconds[i]) {
            Some(v) => times.push(v),
            None => {
                return Err(i);
            },
        }
        i += 1;
    }
    Ok(times)
}

/// The stamps of a series of seconds, or the first entry that is no instant.
pub fn decode_stamps(seconds: &Vec<u64>) -> (r: Result<Vec<String>, usize>)
    ensures
        r is Ok <==> all_decodable(seconds@),
        r matches Ok(stamps) ==> stamped(seconds@, stamps.deep_view()),
        r matches Err(i) ==> first_invalid(seconds@, i as int),
{
    let mut stamps: Vec<String> = Vec::new();
    let mut i: usize = 0;
    while i < seconds.len()
        invariant
            i <= seconds.len(),
            stamps.len() == i,
            forall|j: int| 0 <= j < i ==> is_stamp(seconds[j], (#[trigger] stamps[j])@),
            forall|j: int| 0 <= j < i ==> is_decodable(#[trigger] seconds[j]),
        decreases seconds.len() - i,
    {
        match stamp_from_seconds(seconds[i]) {
            Some(text) => stamps.push(text),
            None => {
                return Err(i);
            },
        }
        i += 1;
    }
    assert forall|j: int| 0 <= j < seconds.len() implies is_stamp(
        seconds[j],
        #[trigger] stamps.deep_view()[j],
    ) by {
        assert(stamps.deep_view()[j] == stamps[j]@);
    }
    Ok(stamps)
}

} // verus!
