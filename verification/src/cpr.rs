//! Compact Position Reporting (CPR) global decode.
//!
//! A position is broadcast as alternating "even" and "odd" frames, each
//! carrying a 17-bit raw latitude and longitude.  Pairing one of each
//! recovers an unambiguous WGS-84 position.  The arithmetic here is
//! exact: latitudes are rationals over fixed denominators, compared
//! against the standard NL breakpoint table scaled to 10^-8 degrees, and
//! results are returned in micro-degrees (10^-6 degrees), rounded to
//! nearest.

use vstd::prelude::*;

verus! {

/// The standard NL transition latitudes, in 10^-8 degrees.  A latitude
/// below entry `k` has NL = 59 - k; below none of them, NL = 1.
pub const NL_BREAKS_E8: [i64; 58] = [
    1047047130, 1482817437, 1818626357, 2102939493, 2354504487, 2582924707, 2793898710,
    2991135686, 3177209708, 3353993436, 3522899598, 3685025108, 3841241892, 3992256684,
    4138651832, 4280914012, 4419454951, 4554626723, 4686733252, 4816039128, 4942776439,
    5067150166, 5189342469, 5309516153, 5427817472, 5544378444, 5659318756, 5772747354,
    5884763776, 5995459277, 6104917774, 6213216659, 6320427479, 6426616523, 6531845310,
    6636171008, 6739646774, 6842322022, 6944242631, 7045451075, 7145986473, 7245884545,
    7345177442, 7443893416, 7542056257, 7639684391, 7736789461, 7833374083, 7929428225,
    8024923213, 8119801349, 8213956981, 8307199445, 8399173563, 8489166191, 8575541621,
    8653536998, 8700000000,
];

/// Absolute value of a mathematical integer.
pub open spec fn abs_i(a: int) -> int {
    if a < 0 {
        -a
    } else {
        a
    }
}

/// NL table scan from entry `k` on, for the absolute latitude `a / den`
/// (in degrees): the first breakpoint strictly above it decides.
pub open spec fn nl_from(a: int, den: int, k: int) -> int
    decreases 58 - k,
{
    if k < 0 || k >= 58 {
        1
    } else if a * 100000000 < NL_BREAKS_E8@[k] * den {
        59 - k
    } else {
        nl_from(a, den, k + 1)
    }
}

/// NL (number of longitude zones) of the latitude `num / den` degrees.
pub open spec fn spec_nl(num: int, den: int) -> int {
    nl_from(abs_i(num), den, 0)
}

/// Rounded conversion of the rational `num / den` degrees into
/// micro-degrees.
pub open spec fn round_e6(num: int, den: int) -> int {
    (2 * num * 1000000 + den) / (2 * den)
}

/// Floor division for a positive divisor.
fn floor_div(a: i64, b: i64) -> (r: i64)
    requires
        b > 0,
        -0x2000000000000000 < a < 0x2000000000000000,
        b < 0x2000000000000000,
    ensures
        r == a as int / b as int,
{
    if a >= 0 {
        a / b
    } else {
        let na = -a;
        let q = na / b;
        let rm = na % b;
        proof {
            assert(na == b * q + rm && 0 <= rm < b) by (nonlinear_arith)
                requires
                    na > 0 && b > 0 && q == (na as int) / (b as int) && rm == (na as int) % (
                    b as int),
            ;
        }
        if rm == 0 {
            proof {
                assert(a == (-q) * b + 0) by (nonlinear_arith)
                    requires
                        a == -na && na == b * q + 0,
                ;
                vstd::arithmetic::div_mod::lemma_fundamental_div_mod_converse(
                    a as int,
                    b as int,
                    -q,
                    0,
                );
            }
            -q
        } else {
            proof {
                assert(a == (-q - 1) * b + (b - rm)) by (nonlinear_arith)
                    requires
                        a == -na && na == b * q + rm,
                ;
                vstd::arithmetic::div_mod::lemma_fundamental_div_mod_converse(
                    a as int,
                    b as int,
                    -q - 1,
                    b - rm,
                );
            }
            -q - 1
        }
    }
}

/// Non-negative modulus: the remainder of `a / b` in `[0, b)`.
pub fn cpr_mod_function(a: i64, b: i64) -> (r: i64)
    requires
        b > 0,
        -0x2000000000000000 < a < 0x2000000000000000,
        b < 0x2000000000000000,
    ensures
        r == (a as int) % (b as int),
        0 <= r < b,
{
    let q = floor_div(a, b);
    proof {
        vstd::arithmetic::div_mod::lemma_fundamental_div_mod(a as int, b as int);
        assert((a as int) % (b as int) >= 0 && (a as int) % (b as int) < b) by (nonlinear_arith)
            requires
                b > 0,
        ;
        assert(q * b == a - (a as int) % (b as int)) by (nonlinear_arith)
            requires
                q == a as int / b as int && a == b * (a as int / b as int) + (a as int) % (b as int),
        ;
    }
    a - q * b
}

/// NL of the rational latitude `num / den` degrees, by exact comparison
/// against the breakpoint table.
fn nl_q(num: i64, den: i64) -> (r: u8)
    requires
        0 < den <= 8000000,
        -360 * den <= num <= 360 * den,
    ensures
        r == spec_nl(num as int, den as int),
        1 <= r <= 59,
{
    let a: i64 = if num < 0 {
        -num
    } else {
        num
    };
    assert(a == abs_i(num as int));
    for k in 0..58usize
        invariant
            a == abs_i(num as int),
            0 <= a,
            0 < den <= 8000000,
            spec_nl(num as int, den as int) == nl_from(a as int, den as int, k as int),
    {
        let bk: i64 = NL_BREAKS_E8[k];
        proof {
            assert(-0x20000000000000000000000000000000 < (a as int) * 100000000
                < 0x20000000000000000000000000000000 && -0x20000000000000000000000000000000 < (
            bk as int) * (den as int) < 0x20000000000000000000000000000000) by (nonlinear_arith)
                requires
                    0 <= a < 0x8000000000000000 && 0 < den <= 8000000 && -0x8000000000000000 <= bk
                        < 0x8000000000000000,
            ;
        }
        let lhs: i128 = (a as i128) * 100000000;
        let rhs: i128 = (bk as i128) * (den as i128);
        if lhs < rhs {
            return (59 - k) as u8;
        }
    }
    1
}

/// NL of a latitude given in micro-degrees.
pub fn cpr_nl_function(lat_e6: i64) -> (r: u8)
    requires
        -360000000 <= lat_e6 <= 360000000,
    ensures
        r == spec_nl(lat_e6 as int, 1000000),
        1 <= r <= 59,
{
    nl_q(lat_e6, 1000000)
}

/// Longitude zone count for a latitude in micro-degrees: NL for an even
/// frame, NL - 1 for an odd one, never below 1.
pub fn cpr_n_function(lat_e6: i64, isodd: bool) -> (r: u8)
    requires
        -360000000 <= lat_e6 <= 360000000,
    ensures
        r as int == {
            let nl = spec_nl(lat_e6 as int, 1000000) - (if isodd {
                1int
            } else {
                0int
            });
            if nl < 1 {
                1int
            } else {
                nl
            }
        },
{
    let nl = cpr_nl_function(lat_e6);
    if isodd {
        if nl <= 2 {
            1
        } else {
            nl - 1
        }
    } else {
        nl
    }
}

/// The global CPR decode of an even/odd frame pair, each a
/// `(raw latitude, raw longitude, sample time)` triple, mirroring the
/// standard algorithm over exact rationals.  `None` when the two frames
/// fall in different longitude-zone bands.
pub open spec fn spec_decode_cpr(even: (u32, u32, u64), odd: (u32, u32, u64)) -> Option<
    (i64, i64),
> {
    let lat0 = even.0 as int;
    let lon0 = even.1 as int;
    let lat1 = odd.0 as int;
    let lon1 = odd.1 as int;
    let j = (118 * lat0 - 120 * lat1 + 131072) / 262144;
    let num0_raw = 6 * ((j % 60) * 131072 + lat0);
    let den0 = 131072int;
    let num1_raw = 360 * ((j % 59) * 131072 + lat1);
    let den1 = 59 * 131072int;
    let num0 = if num0_raw >= 270 * den0 {
        num0_raw - 360 * den0
    } else {
        num0_raw
    };
    let num1 = if num1_raw >= 270 * den1 {
        num1_raw - 360 * den1
    } else {
        num1_raw
    };
    let nl = spec_nl(num0, den0);
    if nl != spec_nl(num1, den1) {
        None
    } else if even.2 > odd.2 {
        let ni = if nl < 1 {
            1int
        } else {
            nl
        };
        let m = (2 * (lon0 * (nl - 1) - lon1 * nl) + 131072) / 262144;
        let lon_raw = 360 * ((m % ni) * 131072 + lon0);
        let lond = ni * 131072;
        let lon_num = if lon_raw > 180 * lond {
            lon_raw - 360 * lond
        } else {
            lon_raw
        };
        Some(((round_e6(num0, den0)) as i64, (round_e6(lon_num, lond)) as i64))
    } else {
        let ni = if nl - 1 < 1 {
            1int
        } else {
            nl - 1
        };
        let m = (2 * (lon0 * (nl - 1) - lon1 * nl) + 131072) / 262144;
        let lon_raw = 360 * ((m % ni) * 131072 + lon1);
        let lond = ni * 131072;
        let lon_num = if lon_raw > 180 * lond {
            lon_raw - 360 * lond
        } else {
            lon_raw
        };
        Some(((round_e6(num1, den1)) as i64, (round_e6(lon_num, lond)) as i64))
    }
}

/// Round the rational `num / den` degrees to micro-degrees.
fn round_to_e6(num: i64, den: i64) -> (r: i64)
    requires
        0 < den <= 8000000,
        -4000000000 <= num <= 4000000000,
    ensures
        r == round_e6(num as int, den as int),
{
    proof {
        assert(-0x2000000000000000 < 2 * (num as int) * 1000000 + den < 0x2000000000000000)
            by (nonlinear_arith)
            requires
                -4000000000 <= num <= 4000000000 && 0 < den <= 8000000,
        ;
    }
    floor_div(2 * num * 1000000 + den, 2 * den)
}

/// Decode an even/odd raw position pair into `(latitude, longitude)` in
/// micro-degrees, or `None` when the frames disagree on the longitude
/// zone count.  The most recent frame (by sample time) picks which
/// latitude band and longitude are reported.
pub fn decode_cpr(even: (u32, u32, u64), odd: (u32, u32, u64)) -> (r: Option<(i64, i64)>)
    requires
        even.0 < 131072 && even.1 < 131072,
        odd.0 < 131072 && odd.1 < 131072,
    ensures
        r == spec_decode_cpr(even, odd),
{
    let lat0 = even.0 as i64;
    let lon0 = even.1 as i64;
    let lat1 = odd.0 as i64;
    let lon1 = odd.1 as i64;

    let j = floor_div(118 * lat0 - 120 * lat1 + 131072, 262144);
    proof {
        vstd::arithmetic::div_mod::lemma_fundamental_div_mod(
            118 * (lat0 as int) - 120 * (lat1 as int) + 131072,
            262144,
        );
    }
    assert(-61 <= j <= 61);
    let j0 = cpr_mod_function(j, 60);
    let j1 = cpr_mod_function(j, 59);

    let num0_raw = 6 * (j0 * 131072 + lat0);
    let den0: i64 = 131072;
    let num1_raw = 360 * (j1 * 131072 + lat1);
    let den1: i64 = 59 * 131072;

    let num0 = if num0_raw >= 270 * den0 {
        num0_raw - 360 * den0
    } else {
        num0_raw
    };
    let num1 = if num1_raw >= 270 * den1 {
        num1_raw - 360 * den1
    } else {
        num1_raw
    };

    let nl0 = nl_q(num0, den0);
    let nl1 = nl_q(num1, den1);

    if nl0 != nl1 {
        return None;
    }

    let nl = nl0 as i64;

    if even.2 > odd.2 {
        let ni: i64 = if nl < 1 {
            1
        } else {
            nl
        };
        assert(-16000000 <= lon0 * (nl - 1) <= 16000000 && -16000000 <= lon1 * nl <= 16000000)
            by (nonlinear_arith)
            requires
                0 <= lon0 < 131072 && 0 <= lon1 < 131072 && 1 <= nl <= 59,
        ;
        let m = floor_div(2 * (lon0 * (nl - 1) - lon1 * nl) + 131072, 262144);
        proof {
            vstd::arithmetic::div_mod::lemma_fundamental_div_mod(
                2 * ((lon0 as int) * ((nl as int) - 1) - (lon1 as int) * (nl as int)) + 131072,
                262144,
            );
        }
        assert(-300 <= m <= 300);
        let mm = cpr_mod_function(m, ni);
        assert(0 <= mm * 131072 <= 59 * 131072 && 0 < ni * 131072 <= 59 * 131072)
            by (nonlinear_arith)
            requires
                1 <= ni <= 59 && 0 <= mm < ni,
        ;
        let lon_raw = 360 * (mm * 131072 + lon0);
        let lond = ni * 131072;
        let lon_num = if lon_raw > 180 * lond {
            lon_raw - 360 * lond
        } else {
            lon_raw
        };
        Some((round_to_e6(num0, den0), round_to_e6(lon_num, lond)))
    } else {
        let ni: i64 = if nl - 1 < 1 {
            1
        } else {
            nl - 1
        };
        assert(-16000000 <= lon0 * (nl - 1) <= 16000000 && -16000000 <= lon1 * nl <= 16000000)
            by (nonlinear_arith)
            requires
                0 <= lon0 < 131072 && 0 <= lon1 < 131072 && 1 <= nl <= 59,
        ;
        let m = floor_div(2 * (lon0 * (nl - 1) - lon1 * nl) + 131072, 262144);
        proof {
            vstd::arithmetic::div_mod::lemma_fundamental_div_mod(
                2 * ((lon0 as int) * ((nl as int) - 1) - (lon1 as int) * (nl as int)) + 131072,
                262144,
            );
        }
        assert(-300 <= m <= 300);
        let mm = cpr_mod_function(m, ni);
        assert(0 <= mm * 131072 <= 59 * 131072 && 0 < ni * 131072 <= 59 * 131072)
            by (nonlinear_arith)
            requires
                1 <= ni <= 59 && 0 <= mm < ni,
        ;
        let lon_raw = 360 * (mm * 131072 + lon1);
        let lond = ni * 131072;
        let lon_num = if lon_raw > 180 * lond {
            lon_raw - 360 * lond
        } else {
            lon_raw
        };
        Some((round_to_e6(num1, den1), round_to_e6(lon_num, lond)))
    }
}

} // verus!
