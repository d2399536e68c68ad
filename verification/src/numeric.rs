//! The numeric value of elements, for comparing an integer with a float.
//!
//! Every finite float is a whole multiple of `2^-1074`. Scaling both an
//! integer and a float by `2^1074` therefore gives two integers, whose
//! order is the numeric order of the two values.

use vstd::prelude::*;
use vstd::arithmetic::div_mod::{lemma_fundamental_div_mod, lemma_mod_bound};
use vstd::arithmetic::power2::{
    lemma2_to64, lemma2_to64_rest, lemma_pow2_adds, lemma_pow2_pos, lemma_pow2_strictly_increases,
    lemma_pow2_unfold, pow2,
};
use crate::element::Element;

verus! {

/// How one value lies to another.
#[derive(Clone, Copy, Debug, PartialEq, Eq, Structural)]
pub enum Relation {
    Below,
    Same,
    Above,
}

/// How `x` lies to `y`.
pub open spec fn relation(x: int, y: int) -> Relation {
    if x < y {
        Relation::Below
    } else if x == y {
        Relation::Same
    } else {
        Relation::Above
    }
}

impl Relation {
    /// The relation seen from the other value.
    pub open spec fn reversed(self) -> Relation {
        match self {
            Relation::Below => Relation::Above,
            Relation::Same => Relation::Same,
            Relation::Above => Relation::Below,
        }
    }

    fn reverse(self) -> (r: Relation)
        ensures
            r == self.reversed(),
    {
        match self {
            Relation::Below => Relation::Above,
            Relation::Same => Relation::Same,
            Relation::Above => Relation::Below,
        }
    }
}

/// The bit pattern of a float without its sign bit.
pub open spec fn float_magnitude_bits(bits: u64) -> int {
    if bits < 0x8000_0000_0000_0000u64 {
        bits as int
    } else {
        bits - 0x8000_0000_0000_0000
    }
}

/// The exponent field of a float: the eleven bits below the sign.
pub open spec fn float_exponent(bits: u64) -> int {
    float_magnitude_bits(bits) / 0x10_0000_0000_0000
}

/// The fraction field of a float: its low fifty-two bits.
pub open spec fn float_fraction(bits: u64) -> int {
    float_magnitude_bits(bits) % 0x10_0000_0000_0000
}

/// The significand as a whole number: the fraction, with the leading one
/// that every pattern but a subnormal implies.
pub open spec fn float_significand(bits: u64) -> int {
    if float_exponent(bits) == 0 {
        float_fraction(bits)
    } else {
        0x10_0000_0000_0000 + float_fraction(bits)
    }
}

/// The power of two by which the significand is multiplied, counted from `2^-1074`.
pub open spec fn float_scale(bits: u64) -> nat {
    if float_exponent(bits) == 0 {
        0
    } else {
        (float_exponent(bits) - 1) as nat
    }
}

/// The value of a float times `2^1074`.
///
/// For a finite float this is exact. The patterns of the infinities and of
/// NaN continue the same formula, which places them outside every finite
/// float and every integer, on the side of their sign.
pub open spec fn float_scaled(bits: u64) -> int {
    let magnitude = float_significand(bits) * pow2(float_scale(bits));
    if bits < 0x8000_0000_0000_0000u64 {
        magnitude
    } else {
        -magnitude
    }
}

/// The significand of a float with the sign of the float.
pub open spec fn float_signed_significand(bits: u64) -> int {
    if bits < 0x8000_0000_0000_0000u64 {
        float_significand(bits)
    } else {
        -float_significand(bits)
    }
}

/// The value of an integer times `2^1074`.
pub open spec fn integer_scaled(i: i64) -> int {
    i * pow2(1074)
}

/// The numeric value of an element times `2^1074`.
pub open spec fn scaled(e: Element) -> int {
    match e {
        Element::Integer(i) => integer_scaled(i),
        Element::Float(bits) => float_scaled(bits),
        Element::Other => 0,
    }
}

proof fn lemma_scaling_keeps_relation(x: int, y: int, p: int)
    requires
        p > 0,
    ensures
        x < y <==> x * p < y * p,
        x == y <==> x * p == y * p,
        x > y <==> x * p > y * p,
{
    assert(x < y ==> x * p < y * p) by (nonlinear_arith)
        requires
            p > 0,
    ;
    assert(x > y ==> x * p > y * p) by (nonlinear_arith)
        requires
            p > 0,
    ;
}

proof fn lemma_pow2_at_least(low: nat, e: nat)
    requires
        low <= e,
    ensures
        pow2(low) <= pow2(e),
{
    if low < e {
        lemma_pow2_strictly_increases(low, e);
    }
}

fn power_of_two(n: u64) -> (r: u64)
    requires
        n <= 52,
    ensures
        r == pow2(n as nat),
        0 < r <= 0x10_0000_0000_0000,
{
    let mut r: u64 = 1;
    let mut i: u64 = 0;
    proof {
        lemma2_to64();
        lemma2_to64_rest();
    }
    while i < n
        invariant
            i <= n <= 52,
            r == pow2(i as nat),
            pow2(52) == 0x10_0000_0000_0000,
        decreases n - i,
    {
        proof {
            lemma_pow2_at_least((i + 1) as nat, 52);
            lemma_pow2_unfold((i + 1) as nat);
        }
        r = r * 2;
        i += 1;
    }
    proof {
        lemma_pow2_at_least(n as nat, 52);
        lemma_pow2_pos(n as nat);
    }
    r
}

/// Relates the whole number `a` to `significand * 2^(scale - 1074)`.
fn relate_magnitudes(a: u64, significand: u64, scale: u64) -> (r: Relation)
    requires
        a <= 0x8000_0000_0000_0000,
        significand < 0x20_0000_0000_0000,
        scale <= 2046,
        scale > 0 ==> significand >= 0x10_0000_0000_0000,
    ensures
        r == relation(a * pow2(1074), significand * pow2(scale as nat)),
{
    let ghost unit = pow2(1074) as int;
    let ghost whole = pow2(scale as nat) as int;
    proof {
        lemma_pow2_pos(1074);
        lemma_pow2_pos(scale as nat);
        lemma2_to64();
        lemma2_to64_rest();
    }
    if scale >= 1074 {
        let k: u64 = scale - 1074;
        let ghost factor = pow2(k as nat) as int;
        proof {
            lemma_pow2_adds(k as nat, 1074);
            lemma_pow2_pos(k as nat);
            assert(significand * whole == (significand * factor) * unit) by (nonlinear_arith)
                requires
                    whole == factor * unit,
            ;
            lemma_scaling_keeps_relation(a as int, significand * factor, unit);
        }
        if k >= 12 {
            proof {
                lemma_pow2_at_least(12, k as nat);
                assert(significand * factor >= 0x1_0000_0000_0000_0000) by (nonlinear_arith)
                    requires
                        significand >= 0x10_0000_0000_0000,
                        factor >= 0x1000,
                ;
            }
            Relation::Below
        } else {
            let p: u64 = power_of_two(k);
            proof {
                lemma_pow2_at_least(k as nat, 11);
                assert(significand * p < 0x1_0000_0000_0000_0000) by (nonlinear_arith)
                    requires
                        0 <= significand < 0x20_0000_0000_0000,
                        0 < p <= 0x800,
                ;
            }
            let y: u64 = significand * p;
            if a < y {
                Relation::Below
            } else if a == y {
                Relation::Same
            } else {
                Relation::Above
            }
        }
    } else {
        let d: u64 = 1074 - scale;
        let ghost factor = pow2(d as nat) as int;
        proof {
            lemma_pow2_adds(d as nat, scale as nat);
            lemma_pow2_pos(d as nat);
            assert(a * unit == (a * factor) * whole) by (nonlinear_arith)
                requires
                    unit == factor * whole,
            ;
            lemma_scaling_keeps_relation(a * factor, significand as int, whole);
        }
        if d >= 53 {
            proof {
                lemma_pow2_at_least(53, d as nat);
                assert(a >= 1 ==> a * factor >= factor) by (nonlinear_arith)
                    requires
                        factor > 0,
                ;
                assert(a == 0 ==> a * factor == 0) by (nonlinear_arith);
            }
            if a == 0 {
                if significand == 0 {
                    Relation::Same
                } else {
                    Relation::Below
                }
            } else {
                Relation::Above
            }
        } else {
            let p: u64 = power_of_two(d);
            let q: u64 = significand / p;
            let rest: u64 = significand % p;
            proof {
                lemma_fundamental_div_mod(significand as int, p as int);
                lemma_mod_bound(significand as int, p as int);
                assert(a < q ==> a * factor + factor <= q * factor) by (nonlinear_arith)
                    requires
                        factor > 0,
                ;
                assert(a > q ==> a * factor >= q * factor + factor) by (nonlinear_arith)
                    requires
                        factor > 0,
                ;
                assert(p * q == q * factor) by (nonlinear_arith)
                    requires
                        p == factor,
                ;
            }
            if a < q {
                Relation::Below
            } else if a == q {
                if rest == 0 {
                    Relation::Same
                } else {
                    Relation::Below
                }
            } else {
                Relation::Above
            }
        }
    }
}

/// Relates an integer to a float, given by its bit pattern, by their values.
pub fn relate_integer_to_float(i: i64, bits: u64) -> (r: Relation)
    ensures
        r == relation(integer_scaled(i), float_scaled(bits)),
{
    let negative: bool = bits >= 0x8000_0000_0000_0000u64;
    let magnitude: u64 = if negative {
        bits - 0x8000_0000_0000_0000u64
    } else {
        bits
    };
    let exponent: u64 = magnitude / 0x10_0000_0000_0000u64;
    let fraction: u64 = magnitude % 0x10_0000_0000_0000u64;
    let significand: u64 = if exponent == 0 {
        fraction
    } else {
        0x10_0000_0000_0000u64 + fraction
    };
    let scale: u64 = if exponent == 0 {
        0
    } else {
        exponent - 1
    };
    let ghost unit = pow2(1074) as int;
    let ghost whole = pow2(scale as nat) as int;
    proof {
        lemma_pow2_pos(1074);
        lemma_pow2_pos(scale as nat);
        assert(significand == float_significand(bits));
        assert(scale as nat == float_scale(bits));
        assert(significand * whole >= 0) by (nonlinear_arith)
            requires
                significand >= 0,
                whole > 0,
        ;
        assert(i > 0 ==> i * unit > 0) by (nonlinear_arith)
            requires
                unit > 0,
        ;
        assert(i < 0 ==> i * unit < 0) by (nonlinear_arith)
            requires
                unit > 0,
        ;
    }
    if negative {
        if i > 0 {
            Relation::Above
        } else {
            let a: u64 = if i == i64::MIN {
                0x8000_0000_0000_0000u64
            } else {
                (-i) as u64
            };
            proof {
                assert(a * unit == -(i * unit)) by (nonlinear_arith)
                    requires
                        a == -i,
                ;
            }
            relate_magnitudes(a, significand, scale).reverse()
        }
    } else {
        if i < 0 {
            Relation::Below
        } else {
            relate_magnitudes(i as u64, significand, scale)
        }
    }
}

proof fn lemma_magnitude_follows_bits(x: u64, y: u64)
    requires
        float_magnitude_bits(x) <= float_magnitude_bits(y),
    ensures
        float_significand(x) * pow2(float_scale(x)) <= float_significand(y) * pow2(float_scale(y)),
        0 <= float_significand(x) * pow2(float_scale(x)),
{
    let sx = float_significand(x);
    let sy = float_significand(y);
    let px = pow2(float_scale(x)) as int;
    let py = pow2(float_scale(y)) as int;
    lemma_pow2_pos(float_scale(x));
    lemma_pow2_pos(float_scale(y));
    assert(0 <= sx * px) by (nonlinear_arith)
        requires
            0 <= sx,
            0 < px,
    ;
    if float_exponent(x) == float_exponent(y) {
        assert(sx * px <= sy * py) by (nonlinear_arith)
            requires
                sx <= sy,
                px == py,
                0 < px,
        ;
    } else if float_exponent(x) == 0 {
        lemma2_to64();
        assert(sx * px <= sy * py) by (nonlinear_arith)
            requires
                px == 1,
                0 <= sx < sy,
                1 <= py,
        ;
    } else {
        let next = (float_scale(x) + 1) as nat;
        lemma_pow2_unfold(next);
        lemma_pow2_at_least(next, float_scale(y));
        let pn = pow2(next) as int;
        assert(sx * px <= sy * py) by (nonlinear_arith)
            requires
                0 <= sx < 0x20_0000_0000_0000,
                0x10_0000_0000_0000 <= sy,
                pn == 2 * px,
                0 < px,
                pn <= py,
        ;
    }
}

/// Within one kind, the ascending order never contradicts the numeric
/// value: an element that comes no later has a value that is no greater.
pub proof fn lemma_order_follows_value(a: Element, b: Element)
    requires
        a.kind() == b.kind(),
        a.leq(b),
    ensures
        scaled(a) <= scaled(b),
{
    match (a, b) {
        (Element::Integer(i), Element::Integer(j)) => {
            lemma_pow2_pos(1074);
            let unit = pow2(1074) as int;
            assert(i * unit <= j * unit) by (nonlinear_arith)
                requires
                    i <= j,
                    0 < unit,
            ;
        },
        (Element::Float(x), Element::Float(y)) => {
            let negative_x = x >= 0x8000_0000_0000_0000u64;
            let negative_y = y >= 0x8000_0000_0000_0000u64;
            if negative_x && negative_y {
                lemma_magnitude_follows_bits(y, x);
            } else if !negative_x && !negative_y {
                lemma_magnitude_follows_bits(x, y);
            } else {
                lemma_magnitude_follows_bits(x, x);
                lemma_magnitude_follows_bits(y, y);
            }
        },
        _ => {},
    }
}

/// The relation of an integer to a float can be read at the scale of the
/// float: against the significand times a power of two where the float is a
/// whole number, and after multiplying the integer by a power of two where
/// the float has binary places.
pub proof fn lemma_relation_at_float_scale(i: i64, bits: u64)
    ensures
        float_scale(bits) >= 1074 ==> relation(integer_scaled(i), float_scaled(bits)) == relation(
            i as int,
            float_signed_significand(bits) * pow2((float_scale(bits) - 1074) as nat),
        ),
        float_scale(bits) < 1074 ==> relation(integer_scaled(i), float_scaled(bits)) == relation(
            i * pow2((1074 - float_scale(bits)) as nat),
            float_signed_significand(bits),
        ),
{
    let scale = float_scale(bits);
    let unit = pow2(1074) as int;
    let whole = pow2(scale) as int;
    let v = float_signed_significand(bits);
    let m = float_significand(bits);
    lemma_pow2_pos(1074);
    lemma_pow2_pos(scale);
    assert((-m) * whole == -(m * whole)) by (nonlinear_arith);
    assert(float_scaled(bits) == v * whole);
    if scale >= 1074 {
        let k = (scale - 1074) as nat;
        let factor = pow2(k) as int;
        lemma_pow2_adds(k, 1074);
        assert(v * whole == (v * factor) * unit) by (nonlinear_arith)
            requires
                whole == factor * unit,
        ;
        lemma_scaling_keeps_relation(i as int, v * factor, unit);
    } else {
        let d = (1074 - scale) as nat;
        let factor = pow2(d) as int;
        lemma_pow2_adds(d, scale);
        assert(i * unit == (i * factor) * whole) by (nonlinear_arith)
            requires
                unit == factor * whole,
        ;
        lemma_scaling_keeps_relation(i * factor, v, whole);
    }
}

} // verus!
