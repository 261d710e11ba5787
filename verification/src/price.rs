//! Exact fixed-point prices.
//!
//! A `Price` stores a monetary value as an integer count of atoms, where one
//! currency unit is `10^PRICE_DECIMALS` atoms. Two economically identical
//! decimal inputs (such as a mantissa/scale pair read as `450 / 10^2` and one
//! read as `45 / 10^1`) always construct the same `Price`, so prices compare
//! and key buckets stably — the instability of binary floating point is what
//! this type exists to avoid.

use vstd::prelude::*;
use vstd::arithmetic::mul::{lemma_mul_equality_converse, lemma_mul_is_associative};
use vstd::arithmetic::div_mod::{lemma_fundamental_div_mod, lemma_mod_multiples_basic};

verus! {

/// Number of decimal places a `Price` resolves: one unit is `10^9` atoms.
pub const PRICE_DECIMALS: u32 = 9;

#[verifier::external_type_specification]
#[verifier::external_body]
pub struct ExDecimal(rust_decimal::Decimal);

/// What `rust_decimal::Decimal::mantissa` returns for a given decimal: a
/// function of the decimal's value alone.
pub uninterp spec fn mantissa_of(d: rust_decimal::Decimal) -> int;

/// What `rust_decimal::Decimal::scale` returns for a given decimal: a
/// function of the decimal's value alone.
pub uninterp spec fn scale_of(d: rust_decimal::Decimal) -> u32;

/// An exact price: `atoms` atoms of `10^-PRICE_DECIMALS` currency units each.
#[derive(Debug, Clone, Copy, PartialEq, Eq, Structural)]
pub struct Price {
    pub atoms: u64,
}

/// `10^e`.
pub open spec fn pow10(e: nat) -> nat
    decreases e,
{
    if e == 0 {
        1
    } else {
        10 * pow10((e - 1) as nat)
    }
}

/// `atoms` atoms stand for the exact decimal value `mantissa / 10^scale`,
/// i.e. `atoms / 10^PRICE_DECIMALS == mantissa / 10^scale` cross-multiplied.
pub open spec fn represents(atoms: u64, mantissa: nat, scale: nat) -> bool {
    (atoms as nat) * pow10(scale) == mantissa * pow10(PRICE_DECIMALS as nat)
}

pub proof fn lemma_pow10_pos(e: nat)
    ensures
        pow10(e) >= 1,
    decreases e,
{
    if e > 0 {
        lemma_pow10_pos((e - 1) as nat);
    }
}

pub proof fn lemma_pow10_adds(a: nat, b: nat)
    ensures
        pow10(a + b) == pow10(a) * pow10(b),
    decreases a,
{
    if a == 0 {
        assert(pow10(0) == 1);
        assert(a + b == b);
        assert(pow10(a + b) == pow10(b));
        assert(pow10(a) * pow10(b) == 1 * pow10(b));
    } else {
        lemma_pow10_adds((a - 1) as nat, b);
        assert(pow10(((a - 1) as nat) + b) == pow10((a - 1) as nat) * pow10(b));
        assert(((a - 1) as nat) + b == ((a - 1) + b) as nat);
        assert(pow10(a + b) == 10 * pow10(((a - 1) + b) as nat));
        assert(pow10(a) == 10 * pow10((a - 1) as nat));
        lemma_mul_is_associative(10, pow10((a - 1) as nat) as int, pow10(b) as int);
        assert(pow10(a) * pow10(b) == (10 * pow10((a - 1) as nat)) * pow10(b));
        assert((10 * pow10((a - 1) as nat)) * pow10(b) == 10 * (pow10((a - 1) as nat) * pow10(b)));
        assert(pow10(a + b) == pow10(a) * pow10(b));
    }
}

pub proof fn lemma_pow10_monotone(e1: nat, e2: nat)
    requires
        e1 <= e2,
    ensures
        pow10(e1) <= pow10(e2),
{
    lemma_pow10_adds(e1, (e2 - e1) as nat);
    lemma_pow10_pos(e1);
    lemma_pow10_pos((e2 - e1) as nat);
    assert(pow10(e1) * pow10((e2 - e1) as nat) >= pow10(e1) * 1) by (nonlinear_arith)
        requires
            pow10((e2 - e1) as nat) >= 1,
            pow10(e1) >= 1,
    ;
}

/// At most one atom count stands for a given decimal value: the price bucket
/// a decimal input lands in is a function of its economic value alone. Two
/// inputs `m1 / 10^s1` and `m2 / 10^s2` of equal value (the cross-multiplied
/// premise) that both construct a price construct the same price.
pub proof fn lemma_equal_value_equal_price(a1: u64, m1: nat, s1: nat, a2: u64, m2: nat, s2: nat)
    requires
        represents(a1, m1, s1),
        represents(a2, m2, s2),
        m1 * pow10(s2) == m2 * pow10(s1),
    ensures
        a1 == a2,
{
    let p1 = pow10(s1) as int;
    let p2 = pow10(s2) as int;
    let p9 = pow10(PRICE_DECIMALS as nat) as int;
    lemma_pow10_pos(s1);
    lemma_pow10_pos(s2);
    assert((p1 * p2) * (a1 as int) == (p1 * p2) * (a2 as int)) by (nonlinear_arith)
        requires
            (a1 as int) * p1 == (m1 as int) * p9,
            (a2 as int) * p2 == (m2 as int) * p9,
            (m1 as int) * p2 == (m2 as int) * p1,
    ;
    assert(p1 * p2 != 0) by (nonlinear_arith)
        requires
            p1 >= 1,
            p2 >= 1,
    ;
    lemma_mul_equality_converse(p1 * p2, a1 as int, a2 as int);
}

/// Helper for `from_parts`: while the running pair `(m, s)` stands for the
/// same value as the input `(mantissa, scale)` and `s <= PRICE_DECIMALS`,
/// the only candidate atom count is `m * 10^(PRICE_DECIMALS - s)`.
proof fn lemma_unique_atoms(mantissa: nat, scale: nat, m: nat, s: nat, a: u64)
    requires
        s <= PRICE_DECIMALS,
        s <= scale,
        mantissa == m * pow10((scale - s) as nat),
        represents(a, mantissa, scale),
    ensures
        (a as nat) == m * pow10((PRICE_DECIMALS - s) as nat),
{
    let k = (scale - s) as nat;
    let e = (PRICE_DECIMALS - s) as nat;
    lemma_pow10_adds(k, s);
    lemma_pow10_adds(e, s);
    lemma_pow10_pos(k);
    lemma_pow10_pos(s);
    let pks = (pow10(k) * pow10(s)) as int;
    assert(pks * (a as int) == pks * ((m * pow10(e)) as int)) by (nonlinear_arith)
        requires
            (a as nat) * pow10(scale) == mantissa * pow10(PRICE_DECIMALS as nat),
            pow10(scale) == pow10(k) * pow10(s),
            pow10(PRICE_DECIMALS as nat) == pow10(e) * pow10(s),
            mantissa == m * pow10(k),
            pks == (pow10(k) * pow10(s)) as int,
    ;
    assert(pks != 0) by (nonlinear_arith)
        requires
            pow10(k) >= 1,
            pow10(s) >= 1,
            pks == (pow10(k) * pow10(s)) as int,
    ;
    lemma_mul_equality_converse(pks, a as int, (m * pow10(e)) as int);
}

impl Price {
    /// Builds the exact price `mantissa / 10^scale`, the decimal-exact
    /// construction path. Returns `None` exactly when that value is not a
    /// whole, `u64`-sized count of atoms.
    #[verifier::loop_isolation(false)]
    pub fn from_parts(mantissa: u128, scale: u32) -> (r: Option<Price>)
        ensures
            r matches Some(p) ==> represents(p.atoms, mantissa as nat, scale as nat),
            r is None ==> forall|a: u64| !represents(a, mantissa as nat, scale as nat),
    {
        let mut m = mantissa;
        let mut s = scale;
        proof {
            assert(pow10(0) == 1);
            assert((scale - s) as nat == 0);
            assert((mantissa as nat) == (m as nat) * pow10((scale - s) as nat));
        }
        while s > PRICE_DECIMALS
            invariant
                s <= scale,
                (mantissa as nat) == (m as nat) * pow10((scale - s) as nat),
            decreases s,
        {
            if m % 10 == 0 {
                proof {
                    let k = (scale - s) as nat;
                    lemma_fundamental_div_mod(m as int, 10);
                    assert(pow10(k + 1) == 10 * pow10(k));
                    assert((mantissa as nat) == ((m / 10) as nat) * pow10(k + 1)) by (nonlinear_arith)
                        requires
                            (mantissa as nat) == (m as nat) * pow10(k),
                            (m as int) == 10 * ((m / 10) as int),
                            pow10(k + 1) == 10 * pow10(k),
                    ;
                }
                m = m / 10;
                s = s - 1;
            } else {
                proof {
                    let k = (scale - s) as nat;
                    let t = (s - PRICE_DECIMALS) as nat;
                    assert forall|a: u64| !represents(a, mantissa as nat, scale as nat) by {
                        if represents(a, mantissa as nat, scale as nat) {
                            lemma_pow10_adds(k, s as nat);
                            lemma_pow10_adds(t, PRICE_DECIMALS as nat);
                            lemma_pow10_pos(k);
                            lemma_pow10_pos(PRICE_DECIMALS as nat);
                            let pk9 = (pow10(k) * pow10(PRICE_DECIMALS as nat)) as int;
                            assert(pk9 * ((a as int) * (pow10(t) as int)) == pk9 * (m as int))
                                by (nonlinear_arith)
                                requires
                                    (a as nat) * pow10(scale as nat) == (mantissa as nat) * pow10(
                                        PRICE_DECIMALS as nat,
                                    ),
                                    pow10(scale as nat) == pow10(k) * (pow10(t) * pow10(
                                        PRICE_DECIMALS as nat,
                                    )),
                                    (mantissa as nat) == (m as nat) * pow10(k),
                                    pk9 == (pow10(k) * pow10(PRICE_DECIMALS as nat)) as int,
                            ;
                            assert(pk9 != 0) by (nonlinear_arith)
                                requires
                                    pow10(k) >= 1,
                                    pow10(PRICE_DECIMALS as nat) >= 1,
                                    pk9 == (pow10(k) * pow10(PRICE_DECIMALS as nat)) as int,
                            ;
                            lemma_mul_equality_converse(
                                pk9,
                                (a as int) * (pow10(t) as int),
                                m as int,
                            );
                            assert(pow10(t) == 10 * pow10((t - 1) as nat));
                            lemma_mod_multiples_basic((a as int) * (pow10((t - 1) as nat) as int), 10);
                            assert((m as int) % 10 == 0) by (nonlinear_arith)
                                requires
                                    (m as int) == (a as int) * (10 * (pow10((t - 1) as nat) as int)),
                                    (((a as int) * (pow10((t - 1) as nat) as int)) * 10) % 10 == 0,
                            ;
                        }
                    }
                }
                return None;
            }
        }
        let mut a = m;
        let mut i = s;
        proof {
            assert(pow10(0) == 1);
            assert((i - s) as nat == 0);
            assert((a as nat) == (m as nat) * pow10((i - s) as nat));
        }
        while i < PRICE_DECIMALS
            invariant
                s <= i <= PRICE_DECIMALS,
                (a as nat) == (m as nat) * pow10((i - s) as nat),
            decreases PRICE_DECIMALS - i,
        {
            if a > 0xFFFF_FFFF_FFFF_FFFFu128 {
                proof {
                    assert forall|q: u64| !represents(q, mantissa as nat, scale as nat) by {
                        if represents(q, mantissa as nat, scale as nat) {
                            lemma_unique_atoms(
                                mantissa as nat,
                                scale as nat,
                                m as nat,
                                s as nat,
                                q,
                            );
                            lemma_pow10_monotone((i - s) as nat, (PRICE_DECIMALS - s) as nat);
                            assert((m as nat) * pow10((i - s) as nat) <= (m as nat) * pow10(
                                (PRICE_DECIMALS - s) as nat,
                            )) by (nonlinear_arith)
                                requires
                                    pow10((i - s) as nat) <= pow10((PRICE_DECIMALS - s) as nat),
                            ;
                        }
                    }
                }
                return None;
            }
            proof {
                assert(pow10(((i - s) + 1) as nat) == 10 * pow10((i - s) as nat));
                assert((a as nat) * 10 == (m as nat) * pow10(((i - s) + 1) as nat))
                    by (nonlinear_arith)
                    requires
                        (a as nat) == (m as nat) * pow10((i - s) as nat),
                        pow10(((i - s) + 1) as nat) == 10 * pow10((i - s) as nat),
                ;
            }
            a = a * 10;
            i = i + 1;
        }
        if a <= 0xFFFF_FFFF_FFFF_FFFFu128 {
            proof {
                let k = (scale - s) as nat;
                let e = (PRICE_DECIMALS - s) as nat;
                lemma_pow10_adds(k, s as nat);
                lemma_pow10_adds(e, s as nat);
                assert(((a as u64) as nat) * pow10(scale as nat) == (mantissa as nat) * pow10(
                    PRICE_DECIMALS as nat,
                )) by (nonlinear_arith)
                    requires
                        (a as nat) == (m as nat) * pow10(e),
                        a <= 0xFFFF_FFFF_FFFF_FFFFu128,
                        (mantissa as nat) == (m as nat) * pow10(k),
                        pow10(scale as nat) == pow10(k) * pow10(s as nat),
                        pow10(PRICE_DECIMALS as nat) == pow10(e) * pow10(s as nat),
                ;
            }
            Some(Price { atoms: a as u64 })
        } else {
            proof {
                assert forall|q: u64| !represents(q, mantissa as nat, scale as nat) by {
                    if represents(q, mantissa as nat, scale as nat) {
                        lemma_unique_atoms(mantissa as nat, scale as nat, m as nat, s as nat, q);
                    }
                }
            }
            None
        }
    }

    /// Reads a decimal's mantissa and scale and builds the exact price
    /// `mantissa_of(d) / 10^scale_of(d)` through `from_parts`: `Some`
    /// exactly when the value is a whole, `u64`-sized count of atoms.
    /// Negative decimals build no price.
    pub fn from_decimal(d: &rust_decimal::Decimal) -> (r: Option<Price>)
        ensures
            mantissa_of(*d) < 0 ==> r is None,
            mantissa_of(*d) >= 0 ==> (r matches Some(p) ==> represents(
                p.atoms,
                mantissa_of(*d) as nat,
                scale_of(*d) as nat,
            )),
            mantissa_of(*d) >= 0 ==> (r is None ==> forall|a: u64|
                !(#[trigger] represents(a, mantissa_of(*d) as nat, scale_of(*d) as nat))),
    {
        let m = decimal_mantissa(d);
        if m < 0 {
            None
        } else {
            Price::from_parts(m as u128, decimal_scale(d))
        }
    }
}

/// Relies on `rust_decimal::Decimal::mantissa`: the signed value of the
/// decimal's 96-bit integer mantissa, here named `mantissa_of`.
#[verifier::external_body]
fn decimal_mantissa(d: &rust_decimal::Decimal) -> (r: i128)
    ensures
        r as int == mantissa_of(*d),
        -0x1000000000000000000000000i128 < r < 0x1000000000000000000000000i128,
{
    d.mantissa()
}

/// Relies on `rust_decimal::Decimal::scale`: the decimal's scale, 0 to 28,
/// here named `scale_of`.
#[verifier::external_body]
fn decimal_scale(d: &rust_decimal::Decimal) -> (r: u32)
    ensures
        r == scale_of(*d),
        r <= 28,
{
    d.scale()
}

} // verus!
