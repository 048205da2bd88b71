//! Timestamps: whole seconds since the Unix epoch, and their on-disk form, an
//! IEEE-754 double counting seconds since 2001-01-01T00:00:00Z (the Cocoa
//! epoch), handled here as its 64-bit pattern.
use vstd::arithmetic::power2::{
    lemma2_to64,
    lemma2_to64_rest,
    lemma_pow2_adds,
    lemma_pow2_pos,
    lemma_pow2_strictly_increases,
    lemma_pow2_unfold,
    pow2,
};
use vstd::prelude::*;

verus! {

/// Seconds from the Unix epoch to the Cocoa epoch.
pub const COCOA_EPOCH_OFFSET: i64 = 978307200;

/// An instant, in whole seconds since 1970-01-01T00:00:00Z (negative before).
#[derive(Clone, Copy, Debug, PartialEq, Eq, Structural)]
pub struct UnixTime {
    pub secs: i64,
}

/// 2^52: the weight of the lowest exponent bit of a double.
pub open spec fn exp_unit() -> int {
    0x10_0000_0000_0000
}

pub open spec fn f64_negative(bits: u64) -> bool {
    bits >= 0x8000_0000_0000_0000u64
}

pub open spec fn f64_exponent(bits: u64) -> int {
    (bits as int / exp_unit()) % 2048
}

pub open spec fn f64_fraction(bits: u64) -> int {
    bits as int % exp_unit()
}

pub open spec fn f64_is_nan(bits: u64) -> bool {
    f64_exponent(bits) == 2047 && f64_fraction(bits) != 0
}

/// The whole part of the magnitude of a finite double.
pub open spec fn f64_whole(bits: u64) -> int {
    let e = f64_exponent(bits);
    let m = exp_unit() + f64_fraction(bits);
    if e == 0 {
        0
    } else if e >= 1075 {
        m * pow2((e - 1075) as nat)
    } else {
        m / (pow2((1075 - e) as nat) as int)
    }
}

/// The instant that a Cocoa timestamp names, cut to whole seconds: NaN and
/// negative values give the Cocoa epoch itself, and instants past the range
/// of `i64` give its largest value.
pub open spec fn unix_of_cocoa(bits: u64) -> i64 {
    if f64_is_nan(bits) || f64_negative(bits) {
        COCOA_EPOCH_OFFSET
    } else if f64_exponent(bits) == 2047 || COCOA_EPOCH_OFFSET + f64_whole(bits) > i64::MAX {
        i64::MAX
    } else {
        (COCOA_EPOCH_OFFSET + f64_whole(bits)) as i64
    }
}

/// Number of binary digits of `m`.
pub open spec fn bit_len(m: nat) -> nat
    decreases m,
{
    if m == 0 {
        0
    } else {
        1 + bit_len(m / 2)
    }
}

/// `m / 2^sh`, rounded to the nearest integer, ties to even.
pub open spec fn round_shift(m: nat, sh: nat) -> int {
    let d = pow2(sh) as int;
    let q = m as int / d;
    let r = m as int % d;
    if sh == 0 {
        q
    } else if r > d / 2 || (r == d / 2 && q % 2 == 1) {
        q + 1
    } else {
        q
    }
}

/// The bit pattern of the double nearest to `v` (ties to even): a sign bit,
/// an 11-bit biased exponent and a 52-bit fraction below a hidden leading one.
pub open spec fn f64_bits_of_int(v: int) -> u64 {
    if v == 0 {
        0
    } else {
        let m: nat = if v < 0 {
            (-v) as nat
        } else {
            v as nat
        };
        let l = bit_len(m);
        let sig: int = if l <= 53 {
            (m * pow2((53 - l) as nat)) as int
        } else {
            round_shift(m, (l - 53) as nat)
        };
        let s: int = if v < 0 {
            0x8000_0000_0000_0000
        } else {
            0
        };
        (s + (1022 + l) * exp_unit() + (sig - exp_unit())) as u64
    }
}

/// The Cocoa timestamp of an instant: `0.0` before the Unix epoch, else the
/// seconds since the Cocoa epoch.
pub open spec fn cocoa_of_unix(t: UnixTime) -> u64 {
    if t.secs < 0 {
        0
    } else {
        f64_bits_of_int(t.secs - COCOA_EPOCH_OFFSET)
    }
}

proof fn lemma_pow2_le(a: nat, b: nat)
    requires
        a <= b,
    ensures
        pow2(a) <= pow2(b),
{
    if a < b {
        lemma_pow2_strictly_increases(a, b);
    }
}

proof fn lemma_bit_len(m: nat, l: nat)
    requires
        l >= 1,
        pow2((l - 1) as nat) <= m < pow2(l),
    ensures
        bit_len(m) == l,
    decreases l,
{
    lemma_pow2_unfold(l);
    if l == 1 {
        lemma2_to64();
        assert(m == 1);
        assert(bit_len(0) == 0);
    } else {
        lemma_pow2_unfold((l - 1) as nat);
        lemma_bit_len(m / 2, (l - 1) as nat);
    }
}

/// 2^k as a machine integer.
fn pow2_u64(k: u64) -> (r: u64)
    requires
        k < 64,
    ensures
        r == pow2(k as nat),
{
    let mut r: u64 = 1;
    let mut i: u64 = 0;
    proof {
        lemma2_to64();
    }
    while i < k
        invariant
            i <= k < 64,
            r == pow2(i as nat),
        decreases k - i,
    {
        proof {
            lemma_pow2_unfold((i + 1) as nat);
            lemma_pow2_strictly_increases((i + 1) as nat, 64);
            lemma2_to64();
        }
        r = r * 2;
        i = i + 1;
    }
    r
}

/// Reads a Cocoa timestamp (the bit pattern of a double) as an instant.
pub fn to_unix_timestamp(bits: u64) -> (r: UnixTime)
    ensures
        r.secs == unix_of_cocoa(bits),
{
    let e: u64 = (bits / 0x10_0000_0000_0000u64) % 2048;
    let frac: u64 = bits % 0x10_0000_0000_0000u64;
    if bits >= 0x8000_0000_0000_0000u64 || (e == 2047 && frac != 0) {
        return UnixTime { secs: COCOA_EPOCH_OFFSET };
    }
    let m: u64 = 0x10_0000_0000_0000u64 + frac;
    if e == 2047 || e >= 1086 {
        proof {
            if e != 2047 {
                lemma_pow2_le(11, (e - 1075) as nat);
                lemma2_to64();
                let p = pow2((e - 1075) as nat);
                assert(m * p >= 0x10_0000_0000_0000 * 2048) by (nonlinear_arith)
                    requires
                        m >= 0x10_0000_0000_0000,
                        p >= 2048,
                ;
            }
        }
        return UnixTime { secs: i64::MAX };
    }
    let whole: u64 = if e < 1023 {
        proof {
            if e > 0 {
                lemma_pow2_le(53, (1075 - e) as nat);
                lemma2_to64_rest();
                vstd::arithmetic::div_mod::lemma_basic_div(
                    m as int,
                    pow2((1075 - e) as nat) as int,
                );
            }
        }
        0
    } else if e >= 1075 {
        let p = pow2_u64(e - 1075);
        proof {
            lemma_pow2_le((e - 1075) as nat, 10);
            lemma2_to64();
            assert(m * p <= 0x20_0000_0000_0000 * 1024) by (nonlinear_arith)
                requires
                    m <= 0x20_0000_0000_0000,
                    p <= 1024,
            ;
        }
        m * p
    } else {
        let d = pow2_u64(1075 - e);
        proof {
            lemma_pow2_pos((1075 - e) as nat);
        }
        m / d
    };
    if whole > (i64::MAX - COCOA_EPOCH_OFFSET) as u64 {
        UnixTime { secs: i64::MAX }
    } else {
        UnixTime { secs: COCOA_EPOCH_OFFSET + whole as i64 }
    }
}

/// The bit pattern of the double nearest to `v`.
fn int_to_f64_bits(v: i64) -> (r: u64)
    requires
        v > i64::MIN,
    ensures
        r == f64_bits_of_int(v as int),
{
    if v == 0 {
        return 0;
    }
    let m: u64 = if v < 0 {
        (-v) as u64
    } else {
        v as u64
    };
    let mut l: u64 = 0;
    let mut p: u64 = 1;
    proof {
        lemma2_to64();
        lemma2_to64_rest();
    }
    while p <= m
        invariant
            1 <= m < 0x8000_0000_0000_0000u64,
            p == pow2(l as nat),
            l == 0 || pow2((l - 1) as nat) <= m,
            l <= 63,
        decreases 64 - l,
    {
        proof {
            if l >= 63 {
                lemma_pow2_le(63, l as nat);
                lemma2_to64_rest();
            }
            lemma_pow2_unfold((l + 1) as nat);
        }
        p = p * 2;
        l = l + 1;
    }
    proof {
        lemma2_to64();
        lemma_bit_len(m as nat, l as nat);
        lemma_pow2_unfold(l as nat);
        lemma2_to64_rest();
    }
    let sig: u64 = if l <= 53 {
        let d = pow2_u64(53 - l);
        proof {
            lemma_pow2_adds((l - 1) as nat, (53 - l) as nat);
            lemma_pow2_adds(l as nat, (53 - l) as nat);
            let lo = pow2((l - 1) as nat);
            let hi = pow2(l as nat);
            assert(lo * d <= m * d < hi * d) by (nonlinear_arith)
                requires
                    lo <= m < hi,
                    d > 0,
            ;
        }
        m * d
    } else {
        let sh: u64 = l - 53;
        let d = pow2_u64(sh);
        let q: u64 = m / d;
        let rem: u64 = m % d;
        proof {
            lemma_pow2_adds(52, sh as nat);
            lemma_pow2_adds(53, sh as nat);
            lemma_pow2_pos(sh as nat);
            let lo: int = pow2(52) as int;
            let hi: int = pow2(53) as int;
            assert(lo <= q < hi) by (nonlinear_arith)
                requires
                    lo * d <= m < hi * d,
                    d > 0,
                    q == m / d,
            ;
            lemma_pow2_unfold(sh as nat);
        }
        if rem > d / 2 || (rem == d / 2 && q % 2 == 1) {
            q + 1
        } else {
            q
        }
    };
    let s: u64 = if v < 0 {
        0x8000_0000_0000_0000u64
    } else {
        0
    };
    s + (1022 + l) * 0x10_0000_0000_0000u64 + (sig - 0x10_0000_0000_0000u64)
}

/// Writes an instant as a Cocoa timestamp (the bit pattern of a double):
/// `0.0` for instants before the Unix epoch.
pub fn to_cocoa_timestamp(t: UnixTime) -> (r: u64)
    ensures
        r == cocoa_of_unix(t),
{
    if t.secs < 0 {
        return 0;
    }
    int_to_f64_bits(t.secs - COCOA_EPOCH_OFFSET)
}

proof fn lemma_bit_len_bounds(m: nat)
    requires
        m >= 1,
    ensures
        bit_len(m) >= 1,
        pow2((bit_len(m) - 1) as nat) <= m < pow2(bit_len(m)),
    decreases m,
{
    let l = bit_len(m);
    if m == 1 {
        assert(bit_len(0) == 0);
        lemma2_to64();
    } else {
        lemma_bit_len_bounds(m / 2);
        let k = bit_len(m / 2);
        assert(l == k + 1);
        lemma_pow2_unfold(l);
        lemma_pow2_unfold(k);
        if k == 1 {
            lemma2_to64();
        }
    }
}

/// An instant in whole seconds, from the Cocoa epoch up to 2^53 seconds
/// after it, survives writing it as a Cocoa timestamp and reading it back.
pub proof fn cocoa_round_trip(t: UnixTime)
    requires
        COCOA_EPOCH_OFFSET <= t.secs < COCOA_EPOCH_OFFSET + 0x20_0000_0000_0000,
    ensures
        unix_of_cocoa(cocoa_of_unix(t)) == t.secs,
{
    let v = t.secs - COCOA_EPOCH_OFFSET;
    lemma2_to64();
    lemma2_to64_rest();
    if v == 0 {
        assert(cocoa_of_unix(t) == 0);
        assert(f64_exponent(0) == 0);
    } else {
        let m = v as nat;
        lemma_bit_len_bounds(m);
        let l = bit_len(m);
        if l > 53 {
            lemma_pow2_le(53, (l - 1) as nat);
        }
        assert(l <= 53);
        let d = pow2((53 - l) as nat);
        lemma_pow2_adds((l - 1) as nat, (53 - l) as nat);
        lemma_pow2_adds(l as nat, (53 - l) as nat);
        lemma_pow2_pos((53 - l) as nat);
        let lo = pow2((l - 1) as nat);
        let hi = pow2(l);
        let sig = m * d;
        assert(lo * d <= sig < hi * d) by (nonlinear_arith)
            requires
                lo <= m < hi,
                d > 0,
                sig == m * d,
        ;
        assert(0x10_0000_0000_0000 <= sig < 0x20_0000_0000_0000);
        let bits_int = (1022 + l) * exp_unit() + (sig - exp_unit());
        assert(bits_int < 0x8000_0000_0000_0000);
        let bits = bits_int as u64;
        assert(cocoa_of_unix(t) == bits);
        let frac: int = sig - exp_unit();
        assert(bits as int / exp_unit() == 1022 + l) by {
            vstd::arithmetic::div_mod::lemma_fundamental_div_mod_converse(
                bits as int,
                exp_unit(),
                (1022 + l) as int,
                frac as int,
            );
        }
        assert(f64_exponent(bits) == 1022 + l);
        assert(f64_fraction(bits) == frac) by {
            vstd::arithmetic::div_mod::lemma_fundamental_div_mod_converse(
                bits as int,
                exp_unit(),
                (1022 + l) as int,
                frac as int,
            );
        }
        assert(!f64_negative(bits));
        assert((1075 - (1022 + l)) as nat == (53 - l) as nat);
        assert(sig as int / (d as int) == m as int) by {
            vstd::arithmetic::div_mod::lemma_div_by_multiple(m as int, d as int);
        }
        assert(exp_unit() + f64_fraction(bits) == sig);
        if l == 53 {
            assert(d == 1);
            assert(f64_whole(bits) == sig * pow2(0));
        } else {
            assert(f64_whole(bits) == sig as int / (d as int));
        }
        assert(f64_whole(bits) == m);
    }
}

} // verus!
