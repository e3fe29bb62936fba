//! Quotients of products that do not fit a machine word.

use vstd::prelude::*;

verus! {

/// The largest factor, divisor and quotient that `mul_div` takes and
/// gives: two to the power of 66.
pub const WIDE: u128 = 0x4_0000_0000_0000_0000;

/// A multiple of `d` that is no larger than `n` has a factor no larger
/// than the quotient.
proof fn lemma_factor_below_quotient(x: int, d: int, n: int)
    requires
        d > 0,
        0 <= x,
        x * d <= n,
    ensures
        x <= n / d,
{
    vstd::arithmetic::div_mod::lemma_div_is_ordered(x * d, n, d);
    vstd::arithmetic::div_mod::lemma_div_multiples_vanish(x, d);
    assert(x * d == d * x) by (nonlinear_arith);
}

/// A product written as a multiple of `d` and a rest below `d` has the
/// multiple as its quotient.
proof fn lemma_quotient_found(q: int, r: int, d: int, n: int)
    requires
        d > 0,
        0 <= r < d,
        q * d + r == n,
    ensures
        q == n / d,
{
    vstd::arithmetic::div_mod::lemma_fundamental_div_mod_converse(n, d, q, r);
}

/// The whole part of `a * b / d`, found without forming the product.
pub fn mul_div(a: u128, b: u128, d: u128) -> (q: u128)
    requires
        0 < d <= WIDE,
        a <= WIDE,
        b <= WIDE,
        (a * b) / (d as int) <= WIDE,
    ensures
        q == (a * b) / (d as int),
{
    let ghost product: int = a * b;
    let mut tq: u128 = a / d;
    let mut tr: u128 = a % d;
    let mut acc_q: u128 = 0;
    let mut acc_r: u128 = 0;
    let mut m: u128 = b;
    proof {
        vstd::arithmetic::div_mod::lemma_fundamental_div_mod(a as int, d as int);
        assert(tq * d == d * tq) by (nonlinear_arith);
        assert(m * (tq * d + tr) == product) by (nonlinear_arith)
            requires
                tq * d + tr == a,
                m == b,
                product == a * b,
        ;
        if m > 0 {
            assert(tq * d <= product) by (nonlinear_arith)
                requires
                    m * (tq * d + tr) == product,
                    m >= 1,
                    tq * d >= 0,
                    tr >= 0,
            ;
            lemma_factor_below_quotient(tq as int, d as int, product);
        }
    }
    while m > 0
        invariant
            0 < d <= WIDE,
            product == a * b,
            product / (d as int) <= WIDE,
            tr < d,
            acc_r < d,
            acc_q <= WIDE,
            m > 0 ==> tq <= WIDE,
            (acc_q * d + acc_r) + m * (tq * d + tr) == product,
        decreases m,
    {
        let ghost acc: int = acc_q * d + acc_r;
        let ghost term: int = tq * d + tr;
        let ghost before = m;
        let bit = m % 2;
        let half = m / 2;
        proof {
            assert(acc_q * d >= 0 && tq * d >= 0) by (nonlinear_arith)
                requires
                    acc_q >= 0,
                    tq >= 0,
                    d > 0,
            ;
        }
        if bit == 1 {
            proof {
                // the sum of both parts is still a part of the product
                assert(acc + term <= product) by (nonlinear_arith)
                    requires
                        acc + before * term == product,
                        before >= 1,
                        term >= 0,
                ;
                assert((acc_q + tq) * d == acc_q * d + tq * d) by (nonlinear_arith);
                assert((acc_q + tq + 1) * d == acc_q * d + tq * d + d) by (nonlinear_arith);
                assert((acc_q + tq) * d <= product);
                lemma_factor_below_quotient(acc_q + tq, d as int, product);
                if acc_r + tr >= d {
                    assert((acc_q + tq + 1) * d <= product);
                    lemma_factor_below_quotient(acc_q + tq + 1, d as int, product);
                }
            }
            acc_q = acc_q + tq;
            acc_r = acc_r + tr;
            if acc_r >= d {
                acc_r = acc_r - d;
                acc_q = acc_q + 1;
            }
        }
        m = half;
        let ghost acc_now: int = acc_q * d + acc_r;
        proof {
            assert(acc_now == acc + bit * term) by (nonlinear_arith)
                requires
                    bit == 0 || bit == 1,
                    bit == 0 ==> acc_now == acc,
                    bit == 1 ==> acc_now == acc + term,
            ;
            assert(acc_now + half * (2 * term) == product) by (nonlinear_arith)
                requires
                    acc + before * term == product,
                    before == 2 * half + bit,
                    acc_now == acc + bit * term,
            ;
        }
        if m > 0 {
            proof {
                assert(2 * term <= product) by (nonlinear_arith)
                    requires
                        acc_now + half * (2 * term) == product,
                        half >= 1,
                        term >= 0,
                        acc_now >= 0,
                ;
                assert((2 * tq) * d == 2 * (tq * d)) by (nonlinear_arith);
                assert((2 * tq + 1) * d == 2 * (tq * d) + d) by (nonlinear_arith);
                assert((2 * tq) * d <= product);
                lemma_factor_below_quotient(2 * tq, d as int, product);
                if 2 * tr >= d {
                    assert((2 * tq + 1) * d <= product);
                    lemma_factor_below_quotient(2 * tq + 1, d as int, product);
                }
            }
            tq = 2 * tq;
            tr = 2 * tr;
            if tr >= d {
                tr = tr - d;
                tq = tq + 1;
            }
            proof {
                assert(tq * d + tr == 2 * term);
            }
        } else {
            proof {
                assert(half * (tq * d + tr) == 0) by (nonlinear_arith)
                    requires
                        half == 0,
                ;
                assert(half * (2 * term) == 0) by (nonlinear_arith)
                    requires
                        half == 0,
                ;
            }
        }
    }
    proof {
        assert(m * (tq * d + tr) == 0) by (nonlinear_arith)
            requires
                m == 0,
        ;
        lemma_quotient_found(acc_q as int, acc_r as int, d as int, product);
    }
    acc_q
}

} // verus!
