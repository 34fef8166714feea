//! Human-readable rendering of the final total.
//!
//! Besides the raw byte count, one line is printed for every binary-unit
//! threshold the total meets, in ascending order: the total divided by the
//! threshold, with no decimal places for KiB and two for the larger units.
//! The quotient is taken the way a double-precision division prints it:
//! the total is first rounded to a 53-bit mantissa, the quotient is exact
//! (the divisor is a power of two), and the printed figure keeps the given
//! number of decimal places, rounding to nearest with ties to even.

use vstd::arithmetic::div_mod::lemma_fundamental_div_mod;
use vstd::arithmetic::div_mod::lemma_fundamental_div_mod_converse;
use vstd::arithmetic::power2::lemma2_to64;
use vstd::arithmetic::power2::lemma2_to64_rest;
use vstd::arithmetic::power2::lemma_pow2_adds;
use vstd::arithmetic::power2::lemma_pow2_pos;
use vstd::arithmetic::power2::lemma_pow2_strictly_increases;
use vstd::arithmetic::power2::pow2;
use vstd::prelude::*;
use vstd::string::StringExecFns;

verus! {

/// Number of binary digits of `n`.
pub open spec fn bit_len(n: nat) -> nat
    decreases n,
{
    if n == 0 {
        0
    } else {
        1 + bit_len(n / 2)
    }
}

/// The value that converting `n` to a double-precision number yields: `n`
/// rounded to its 53 leading binary digits, ties to the even mantissa.
pub open spec fn float_round(n: nat) -> nat {
    if bit_len(n) <= 53 {
        n
    } else {
        let sh = (bit_len(n) - 53) as nat;
        let q = n / pow2(sh);
        let r = n % pow2(sh);
        if 2 * r > pow2(sh) || (2 * r == pow2(sh) && q % 2 == 1) {
            (q + 1) * pow2(sh)
        } else {
            q * pow2(sh)
        }
    }
}

/// `a / b` rounded to the nearest integer, ties to even.
pub open spec fn div_round_even(a: nat, b: nat) -> nat {
    let q = a / b;
    let r = a % b;
    if 2 * r > b || (2 * r == b && q % 2 == 1) {
        q + 1
    } else {
        q
    }
}

/// The figure printed for threshold `2^k`, scaled to an integer by `p10`
/// (1 for no decimal places, 100 for two): the rounded float value of the
/// total, divided by `2^k`, with the decimals kept and the rest rounded to
/// nearest, ties to even.
pub open spec fn scaled(n: nat, k: nat, p10: nat) -> nat {
    div_round_even(float_round(n) * p10, pow2(k))
}

/// The decimal digit character for `d`.
pub open spec fn digit(d: nat) -> char {
    if d == 0 {
        '0'
    } else if d == 1 {
        '1'
    } else if d == 2 {
        '2'
    } else if d == 3 {
        '3'
    } else if d == 4 {
        '4'
    } else if d == 5 {
        '5'
    } else if d == 6 {
        '6'
    } else if d == 7 {
        '7'
    } else if d == 8 {
        '8'
    } else {
        '9'
    }
}

/// The decimal numeral of `n`, most significant digit first.
pub open spec fn dec_str(n: nat) -> Seq<char>
    decreases n,
{
    if n < 10 {
        seq![digit(n)]
    } else {
        dec_str(n / 10).push(digit(n % 10))
    }
}

/// One printed line for a threshold: the scaled figure with zero or two
/// decimal places, a space, and the unit suffix.
pub open spec fn line_str(n: nat, k: nat, dd: nat, suffix: Seq<char>) -> Seq<char> {
    if dd == 0 {
        dec_str(scaled(n, k, 1)) + seq![' '] + suffix
    } else {
        let s = scaled(n, k, 100);
        dec_str(s / 100) + seq!['.', digit((s / 10) % 10), digit(s % 10)] + seq![' '] + suffix
    }
}

/// Everything the formatter prints for total `n`: the raw count, then one
/// line per threshold met, in ascending order.
pub open spec fn spec_lines(n: nat) -> Seq<Seq<char>> {
    seq![dec_str(n)] + (if n >= pow2(10) {
        seq![line_str(n, 10, 0, "KiB"@)]
    } else {
        Seq::<Seq<char>>::empty()
    }) + (if n >= pow2(20) {
        seq![line_str(n, 20, 2, "MiB"@)]
    } else {
        Seq::<Seq<char>>::empty()
    }) + (if n >= pow2(30) {
        seq![line_str(n, 30, 2, "GiB"@)]
    } else {
        Seq::<Seq<char>>::empty()
    }) + (if n >= pow2(40) {
        seq![line_str(n, 40, 2, "TiB"@)]
    } else {
        Seq::<Seq<char>>::empty()
    }) + (if n >= pow2(50) {
        seq![line_str(n, 50, 2, "PiB"@)]
    } else {
        Seq::<Seq<char>>::empty()
    }) + (if n >= pow2(60) {
        seq![line_str(n, 60, 2, "EiB"@)]
    } else {
        Seq::<Seq<char>>::empty()
    }) + (if n >= pow2(70) {
        seq![line_str(n, 70, 2, "ZiB"@)]
    } else {
        Seq::<Seq<char>>::empty()
    }) + (if n >= pow2(80) {
        seq![line_str(n, 80, 2, "YiB"@)]
    } else {
        Seq::<Seq<char>>::empty()
    })
}

/// A number smaller than `2^k` has at most `k` binary digits.
proof fn lemma_bit_len_bound(n: nat, k: nat)
    requires
        n < pow2(k),
    ensures
        bit_len(n) <= k,
    decreases k,
{
    if n > 0 {
        if k == 0 {
            assert(pow2(0) == 1) by {
                lemma2_to64();
            }
        } else {
            assert(pow2(k) == 2 * pow2((k - 1) as nat)) by {
                lemma_pow2_adds(1, (k - 1) as nat);
                lemma2_to64();
            }
            lemma_bit_len_bound(n / 2, (k - 1) as nat);
        }
    }
}

/// A positive number lies between the powers of two its digit count names.
proof fn lemma_bit_len_range(n: nat)
    requires
        n > 0,
    ensures
        pow2((bit_len(n) - 1) as nat) <= n < pow2(bit_len(n)),
    decreases n,
{
    if n < 2 {
        assert(bit_len(0) == 0);
        assert(bit_len(n) == 1);
        assert(pow2(0) == 1 && pow2(1) == 2) by {
            lemma2_to64();
        }
    } else {
        lemma_bit_len_range(n / 2);
        let b = bit_len(n / 2);
        assert(b >= 1);
        assert(bit_len(n) == b + 1);
        assert(pow2(b + 1) == 2 * pow2(b)) by {
            lemma_pow2_adds(1, b);
            lemma2_to64();
        }
        assert(pow2(b) == 2 * pow2((b - 1) as nat)) by {
            lemma_pow2_adds(1, (b - 1) as nat);
            lemma2_to64();
        }
        assert(n >= 2 * (n / 2));
        assert(n < 2 * (n / 2) + 2);
        assert(n >= pow2(b));
        assert(n < pow2(b + 1));
    }
}

/// Rounding to nearest with ties to even is unchanged by scaling the
/// fraction.
proof fn lemma_div_round_even_scale(a: nat, b: nat, c: nat)
    requires
        b >= 1,
        c >= 1,
    ensures
        div_round_even(a * c, b * c) == div_round_even(a, b),
{
    let q = a / b;
    let r = a % b;
    lemma_fundamental_div_mod(a as int, b as int);
    assert((a * c) as int == q * ((b * c) as int) + (r * c) as int) by (nonlinear_arith)
        requires a == q * b + r;
    assert(r * c < b * c) by (nonlinear_arith)
        requires r < b, c >= 1;
    lemma_fundamental_div_mod_converse((a * c) as int, (b * c) as int, q as int, (r * c) as int);
    assert((a * c) / (b * c) == q);
    assert((a * c) % (b * c) == r * c);
    assert((2 * (r * c) > b * c) == (2 * r > b)) by (nonlinear_arith)
        requires c >= 1;
    assert((2 * (r * c) == b * c) == (2 * r == b)) by (nonlinear_arith)
        requires c >= 1;
}

/// Number of binary digits, computed by repeated halving.
fn bit_length(n: u128) -> (l: usize)
    ensures
        l as nat == bit_len(n as nat),
        l <= 128,
{
    proof {
        assert(pow2(128) == pow2(64) * pow2(64)) by {
            lemma_pow2_adds(64, 64);
        }
        lemma2_to64();
        lemma2_to64_rest();
        assert(pow2(64) * pow2(64) > u128::MAX as nat) by (nonlinear_arith)
            requires pow2(64) == 0x1_0000_0000_0000_0000nat;
        lemma_bit_len_bound(n as nat, 128);
    }
    let mut m = n;
    let mut l: usize = 0;
    while m > 0
        invariant
            bit_len(n as nat) == l + bit_len(m as nat),
            l + bit_len(m as nat) <= 128,
        decreases m,
    {
        m = m / 2;
        l = l + 1;
    }
    l
}

/// `2^e`, computed by repeated doubling.
fn pow2_u128(e: usize) -> (r: u128)
    requires
        e <= 127,
    ensures
        r as nat == pow2(e as nat),
        r >= 1,
{
    proof {
        lemma2_to64();
    }
    let mut p: u128 = 1;
    let mut i: usize = 0;
    while i < e
        invariant
            i <= e,
            e <= 127,
            p as nat == pow2(i as nat),
        decreases e - i,
    {
        proof {
            lemma_pow2_strictly_increases(i as nat, 127);
            assert(pow2(127) == pow2(63) * pow2(64)) by {
                lemma_pow2_adds(63, 64);
            }
            lemma2_to64();
            lemma2_to64_rest();
            assert(pow2(63) * pow2(64) == 0x8000_0000_0000_0000_0000_0000_0000_0000)
                by (nonlinear_arith)
                requires
                    pow2(63) == 0x8000_0000_0000_0000nat,
                    pow2(64) == 0x1_0000_0000_0000_0000nat,
            ;
            assert(pow2(i as nat + 1) == 2 * pow2(i as nat)) by {
                lemma_pow2_adds(1, i as nat);
            }
        }
        p = p * 2;
        i = i + 1;
    }
    proof {
        lemma_pow2_pos(e as nat);
    }
    p
}

/// `a / b` rounded to nearest, ties to even.
fn div_half_even(a: u128, b: u128) -> (r: u128)
    requires
        b >= 1,
        a < u128::MAX,
    ensures
        r as nat == div_round_even(a as nat, b as nat),
{
    let q = a / b;
    let r0 = a % b;
    proof {
        assert(q <= a) by (nonlinear_arith)
            requires b >= 1, q == a / b;
    }
    if r0 > b - r0 {
        q + 1
    } else if r0 == b - r0 && q % 2 == 1 {
        q + 1
    } else {
        q
    }
}

/// The rounded float value of `n`, as mantissa times `2^exponent`.
#[verifier::rlimit(60)]
fn mantissa(n: u128) -> (r: (u128, usize))
    ensures
        (r.0 as nat) * pow2(r.1 as nat) == float_round(n as nat),
        r.0 as nat <= pow2(53),
        r.1 <= 75,
{
    let l = bit_length(n);
    if l <= 53 {
        proof {
            lemma2_to64();
            lemma2_to64_rest();
            if n > 0 {
                lemma_bit_len_range(n as nat);
                if bit_len(n as nat) < 53 {
                    lemma_pow2_strictly_increases(bit_len(n as nat), 53);
                }
            }
            assert(pow2(0) == 1);
            assert((n as nat) * pow2(0) == n as nat) by (nonlinear_arith)
                requires
                    pow2(0) == 1nat,
            ;
            assert(float_round(n as nat) == n as nat);
            assert(n as nat <= pow2(53));
        }
        (n, 0)
    } else {
        let sh = l - 53;
        let p = pow2_u128(sh);
        let q = n / p;
        let r = n % p;
        proof {
            assert(n > 0);
            lemma_bit_len_range(n as nat);
            assert(pow2(l as nat) == pow2(sh as nat) * pow2(53)) by {
                lemma_pow2_adds(sh as nat, 53);
            }
            assert((n as nat) < (p as nat) * pow2(53));
            lemma_fundamental_div_mod(n as int, p as int);
            assert(q as int == n as int / p as int);
            assert(r as int == n as int % p as int);
            assert(n as nat == (q as nat) * (p as nat) + (r as nat));
            assert((q as nat) < pow2(53)) by (nonlinear_arith)
                requires
                    n as nat == (q as nat) * (p as nat) + (r as nat),
                    (r as nat) < (p as nat),
                    (n as nat) < (p as nat) * pow2(53),
                    (p as nat) >= 1,
            ;
            lemma2_to64();
            lemma2_to64_rest();
            let shn = (bit_len(n as nat) - 53) as nat;
            assert(shn == sh as nat);
            assert(p as nat == pow2(shn));
            assert(q as nat == (n as nat) / pow2(shn));
            assert(r as nat == (n as nat) % pow2(shn));
            assert(r < p);
            assert((r > p - r) == (2 * (r as nat) > pow2(shn)));
            assert((r == p - r) == (2 * (r as nat) == pow2(shn)));
            if r > p - r || (r == p - r && q % 2 == 1) {
                assert(float_round(n as nat) == ((q as nat) + 1) * pow2(shn));
            } else {
                assert(float_round(n as nat) == (q as nat) * pow2(shn));
            }
        }
        let q2 = if r > p - r || (r == p - r && q % 2 == 1) {
            q + 1
        } else {
            q
        };
        proof {
            assert((q2 as nat) * pow2(sh as nat) == float_round(n as nat));
            assert(q2 as nat <= pow2(53));
        }
        (q2, sh)
    }
}

/// The figure for one threshold, scaled to an integer by `p10`.
fn scaled_u128(n: u128, k: usize, p10: u128) -> (r: u128)
    requires
        10 <= k <= 80,
        p10 == 1 || p10 == 100,
    ensures
        r as nat == scaled(n as nat, k as nat, p10 as nat),
{
    let m = mantissa(n);
    let s = m.0;
    let e = m.1;
    proof {
        lemma2_to64();
        lemma2_to64_rest();
    }
    if e >= k {
        let p = pow2_u128(e - k);
        proof {
            assert(pow2((e - k) as nat) <= pow2(65)) by {
                if ((e - k) as nat) < 65 {
                    lemma_pow2_strictly_increases((e - k) as nat, 65);
                }
            }
            assert(pow2(65) == 2 * pow2(64)) by {
                lemma_pow2_adds(1, 64);
            }
            assert((s as nat) * (p10 as nat) <= pow2(53) * 100) by (nonlinear_arith)
                requires
                    s as nat <= pow2(53),
                    p10 as nat <= 100,
            ;
            assert((s as nat) * (p10 as nat) * (p as nat) <= pow2(53) * 100 * (2 * pow2(64)))
                by (nonlinear_arith)
                requires
                    s as nat <= pow2(53),
                    p10 as nat <= 100,
                    p as nat <= 2 * pow2(64),
            ;
        }
        let v = s * p10 * p;
        proof {
            let fl = float_round(n as nat);
            assert(pow2(e as nat) == pow2((e - k) as nat) * pow2(k as nat)) by {
                lemma_pow2_adds((e - k) as nat, k as nat);
            }
            assert(fl * (p10 as nat) == (v as nat) * pow2(k as nat)) by (nonlinear_arith)
                requires
                    fl == (s as nat) * pow2(e as nat),
                    v as nat == (s as nat) * (p10 as nat) * (p as nat),
                    pow2(e as nat) == (p as nat) * pow2(k as nat),
            ;
            lemma_pow2_pos(k as nat);
            lemma_fundamental_div_mod_converse(
                (fl * (p10 as nat)) as int,
                pow2(k as nat) as int,
                v as int,
                0,
            );
        }
        v
    } else {
        let p = pow2_u128(k - e);
        let a = s * p10;
        proof {
            assert((s as nat) * (p10 as nat) <= pow2(53) * 100) by (nonlinear_arith)
                requires
                    s as nat <= pow2(53),
                    p10 as nat <= 100,
            ;
        }
        let r = div_half_even(a, p);
        proof {
            lemma_pow2_pos((k - e) as nat);
            lemma_pow2_pos(e as nat);
            lemma_div_round_even_scale(a as nat, p as nat, pow2(e as nat));
            assert((a as nat) * pow2(e as nat) == float_round(n as nat) * (p10 as nat))
                by (nonlinear_arith)
                requires
                    a as nat == (s as nat) * (p10 as nat),
                    float_round(n as nat) == (s as nat) * pow2(e as nat),
            ;
            assert((p as nat) * pow2(e as nat) == pow2(k as nat)) by {
                lemma_pow2_adds((k - e) as nat, e as nat);
            }
        }
        r
    }
}

/// The numeral for one decimal digit.
fn digit_str(d: u128) -> (r: &'static str)
    requires
        d < 10,
    ensures
        r@ == seq![digit(d as nat)],
{
    proof {
        reveal_strlit("0");
        reveal_strlit("1");
        reveal_strlit("2");
        reveal_strlit("3");
        reveal_strlit("4");
        reveal_strlit("5");
        reveal_strlit("6");
        reveal_strlit("7");
        reveal_strlit("8");
        reveal_strlit("9");
    }
    let r: &'static str = if d == 0 {
        "0"
    } else if d == 1 {
        "1"
    } else if d == 2 {
        "2"
    } else if d == 3 {
        "3"
    } else if d == 4 {
        "4"
    } else if d == 5 {
        "5"
    } else if d == 6 {
        "6"
    } else if d == 7 {
        "7"
    } else if d == 8 {
        "8"
    } else {
        "9"
    };
    proof {
        assert(r@ =~= seq![digit(d as nat)]);
    }
    r
}

/// The decimal numeral of `n`.
pub fn decimal_string(n: u128) -> (s: String)
    ensures
        s@ == dec_str(n as nat),
    decreases n,
{
    if n < 10 {
        String::from_str(digit_str(n))
    } else {
        let mut s = decimal_string(n / 10);
        s.append(digit_str(n % 10));
        proof {
            assert(s@ =~= dec_str(n as nat));
        }
        s
    }
}

/// One line of output: the scaled figure, zero or two decimal places, and
/// the unit suffix.
fn unit_line(n: u128, k: usize, two_decimals: bool, suffix: &str) -> (s: String)
    requires
        10 <= k <= 80,
    ensures
        s@ == line_str(
            n as nat,
            k as nat,
            if two_decimals {
                2nat
            } else {
                0nat
            },
            suffix@,
        ),
{
    proof {
        reveal_strlit(" ");
        reveal_strlit(".");
    }
    if !two_decimals {
        let v = scaled_u128(n, k, 1);
        let mut s = decimal_string(v);
        s.append(" ");
        s.append(suffix);
        proof {
            assert(s@ =~= line_str(n as nat, k as nat, 0, suffix@));
        }
        s
    } else {
        let v = scaled_u128(n, k, 100);
        let mut s = decimal_string(v / 100);
        s.append(".");
        s.append(digit_str((v / 10) % 10));
        s.append(digit_str(v % 10));
        s.append(" ");
        s.append(suffix);
        proof {
            assert(s@ =~= line_str(n as nat, k as nat, 2, suffix@));
        }
        s
    }
}

/// Render a total: the raw byte count, then one line per binary-unit
/// threshold the total meets, in ascending order.
pub fn format_large(n: u128) -> (lines: Vec<String>)
    ensures
        lines@.map_values(|s: String| s@) == spec_lines(n as nat),
{
    proof {
        lemma2_to64();
        lemma2_to64_rest();
        assert(pow2(70) == pow2(6) * pow2(64)) by {
            lemma_pow2_adds(6, 64);
        }
        assert(pow2(6) * pow2(64) == 1180591620717411303424) by (nonlinear_arith)
            requires
                pow2(6) == 64nat,
                pow2(64) == 0x1_0000_0000_0000_0000nat,
        ;
        assert(pow2(80) == pow2(16) * pow2(64)) by {
            lemma_pow2_adds(16, 64);
        }
        assert(pow2(16) * pow2(64) == 1208925819614629174706176) by (nonlinear_arith)
            requires
                pow2(16) == 65536nat,
                pow2(64) == 0x1_0000_0000_0000_0000nat,
        ;
    }
    let ghost e: Seq<Seq<char>> = Seq::empty();
    let mut lines: Vec<String> = Vec::new();
    lines.push(decimal_string(n));
    let ghost l0 = seq![dec_str(n as nat)];
    proof {
        assert(lines@.map_values(|s: String| s@) =~= l0);
    }
    if n >= 1024 {
        lines.push(unit_line(n, 10, false, "KiB"));
    }
    let ghost l1 = l0 + (if (n as nat) >= pow2(10) {
        seq![line_str(n as nat, 10, 0, "KiB"@)]
    } else {
        e
    });
    proof {
        assert(lines@.map_values(|s: String| s@) =~= l1);
    }
    if n >= 1048576 {
        lines.push(unit_line(n, 20, true, "MiB"));
    }
    let ghost l2 = l1 + (if (n as nat) >= pow2(20) {
        seq![line_str(n as nat, 20, 2, "MiB"@)]
    } else {
        e
    });
    proof {
        assert(lines@.map_values(|s: String| s@) =~= l2);
    }
    if n >= 1073741824 {
        lines.push(unit_line(n, 30, true, "GiB"));
    }
    let ghost l3 = l2 + (if (n as nat) >= pow2(30) {
        seq![line_str(n as nat, 30, 2, "GiB"@)]
    } else {
        e
    });
    proof {
        assert(lines@.map_values(|s: String| s@) =~= l3);
    }
    if n >= 1099511627776 {
        lines.push(unit_line(n, 40, true, "TiB"));
    }
    let ghost l4 = l3 + (if (n as nat) >= pow2(40) {
        seq![line_str(n as nat, 40, 2, "TiB"@)]
    } else {
        e
    });
    proof {
        assert(lines@.map_values(|s: String| s@) =~= l4);
    }
    if n >= 1125899906842624 {
        lines.push(unit_line(n, 50, true, "PiB"));
    }
    let ghost l5 = l4 + (if (n as nat) >= pow2(50) {
        seq![line_str(n as nat, 50, 2, "PiB"@)]
    } else {
        e
    });
    proof {
        assert(lines@.map_values(|s: String| s@) =~= l5);
    }
    if n >= 1152921504606846976 {
        lines.push(unit_line(n, 60, true, "EiB"));
    }
    let ghost l6 = l5 + (if (n as nat) >= pow2(60) {
        seq![line_str(n as nat, 60, 2, "EiB"@)]
    } else {
        e
    });
    proof {
        assert(lines@.map_values(|s: String| s@) =~= l6);
    }
    if n >= 1180591620717411303424 {
        lines.push(unit_line(n, 70, true, "ZiB"));
    }
    let ghost l7 = l6 + (if (n as nat) >= pow2(70) {
        seq![line_str(n as nat, 70, 2, "ZiB"@)]
    } else {
        e
    });
    proof {
        assert(lines@.map_values(|s: String| s@) =~= l7);
    }
    if n >= 1208925819614629174706176 {
        lines.push(unit_line(n, 80, true, "YiB"));
    }
    let ghost l8 = l7 + (if (n as nat) >= pow2(80) {
        seq![line_str(n as nat, 80, 2, "YiB"@)]
    } else {
        e
    });
    proof {
        assert(lines@.map_values(|s: String| s@) =~= l8);
        assert(l8 =~= spec_lines(n as nat));
    }
    lines
}

} // verus!
