//! Exact decimal quantities for monetary amounts.
//!
//! A `Quantity` is `mantissa * 10^(-scale)` with an `i64` mantissa and a
//! scale of at most [`MAX_SCALE`] decimal places. All arithmetic is exact:
//! a pair of quantities is brought to their common (larger) scale and the
//! mantissas are combined, with an explicit overflow signal instead of
//! rounding or wrapping.
use vstd::prelude::*;

verus! {

/// Largest number of decimal places a quantity may carry.
pub const MAX_SCALE: u32 = 18;

/// `10^e`, the factor between two decimal scales `e` apart.
pub open spec fn pow10(e: nat) -> int
    decreases e,
{
    if e == 0 {
        1
    } else {
        10 * pow10((e - 1) as nat)
    }
}

pub proof fn lemma_pow10_pos(e: nat)
    ensures
        pow10(e) >= 1,
    decreases e,
{
    if e > 0 {
        lemma_pow10_pos((e - 1) as nat);
    }
}

pub proof fn lemma_pow10_adds(a: nat, b: nat)
    ensures
        pow10(a + b) == pow10(a) * pow10(b),
    decreases a,
{
    if a == 0 {
    } else {
        lemma_pow10_adds((a - 1) as nat, b);
        assert(pow10(a + b) == 10 * pow10((a - 1) as nat + b));
        assert(10 * (pow10((a - 1) as nat) * pow10(b)) == (10 * pow10((a - 1) as nat)) * pow10(b))
            by (nonlinear_arith);
    }
}

pub proof fn lemma_pow10_increases(a: nat, b: nat)
    requires
        a <= b,
    ensures
        pow10(a) <= pow10(b),
    decreases b,
{
    if a < b {
        lemma_pow10_increases(a, (b - 1) as nat);
        lemma_pow10_pos((b - 1) as nat);
    }
}

/// An exact signed decimal: the value `mantissa * 10^(-scale)`.
///
/// Well-formed quantities keep `scale <= MAX_SCALE`; equality is structural,
/// so `1.0` (mantissa 10, scale 1) and `1` (mantissa 1, scale 0) are distinct
/// representations. [`Quantity::scaled`] gives the representation-independent
/// value, and [`Quantity::le`] compares by it.
#[derive(Clone, Copy, Debug, PartialEq, Eq, Structural)]
pub struct Quantity {
    pub mantissa: i64,
    pub scale: u32,
}

impl Quantity {
    /// The scale stays within the supported number of decimal places.
    pub open spec fn wf(self) -> bool {
        self.scale <= MAX_SCALE
    }

    /// The value of the quantity as a whole number of 10^(-MAX_SCALE) units.
    /// Two quantities denote the same number exactly when their `scaled`
    /// values are equal.
    pub open spec fn scaled(self) -> int {
        self.mantissa * pow10((MAX_SCALE - self.scale) as nat)
    }

    /// The quantity zero.
    pub fn zero() -> (r: Quantity)
        ensures
            r.wf(),
            r.scaled() == 0,
            r == (Quantity { mantissa: 0, scale: 0 }),
    {
        Quantity { mantissa: 0, scale: 0 }
    }

    /// A quantity from its parts; `None` exactly when the scale is too fine.
    pub fn new(mantissa: i64, scale: u32) -> (r: Option<Quantity>)
        ensures
            r is Some <==> scale <= MAX_SCALE,
            r is Some ==> r.unwrap() == (Quantity { mantissa, scale }) && r.unwrap().wf(),
    {
        if scale <= MAX_SCALE {
            Some(Quantity { mantissa, scale })
        } else {
            None
        }
    }

    /// A whole-number quantity.
    pub fn from_integer(n: i64) -> (r: Quantity)
        ensures
            r.wf(),
            r == (Quantity { mantissa: n, scale: 0 }),
            r.scaled() == n * pow10(MAX_SCALE as nat),
    {
        Quantity { mantissa: n, scale: 0 }
    }
}

/// The common (finer) scale two quantities are brought to for arithmetic.
pub open spec fn common_scale(a: Quantity, b: Quantity) -> u32 {
    if a.scale >= b.scale {
        a.scale
    } else {
        b.scale
    }
}

/// The mantissa of `q` rewritten at the coarser-to-finer scale `c`.
pub open spec fn lift(q: Quantity, c: u32) -> int
    recommends
        q.scale <= c,
{
    q.mantissa * pow10((c - q.scale) as nat)
}

/// The exact difference `a - b`, as a mantissa at the common scale.
pub open spec fn sub_mantissa(a: Quantity, b: Quantity) -> int {
    lift(a, common_scale(a, b)) - lift(b, common_scale(a, b))
}

/// What subtraction returns: the exact difference at the common scale, or
/// `None` when its mantissa does not fit the mantissa type.
pub open spec fn spec_sub(a: Quantity, b: Quantity) -> Option<Quantity> {
    let sm = sub_mantissa(a, b);
    if i64::MIN <= sm <= i64::MAX {
        Some(Quantity { mantissa: sm as i64, scale: common_scale(a, b) })
    } else {
        None
    }
}

/// Lifting to a coarser scale preserves the value.
pub proof fn lemma_lift_scaled(q: Quantity, c: u32)
    requires
        q.wf(),
        q.scale <= c <= MAX_SCALE,
    ensures
        lift(q, c) * pow10((MAX_SCALE - c) as nat) == q.scaled(),
{
    let d = (c - q.scale) as nat;
    let r = (MAX_SCALE - c) as nat;
    lemma_pow10_adds(d, r);
    assert((q.mantissa * pow10(d)) * pow10(r) == q.mantissa * (pow10(d) * pow10(r)))
        by (nonlinear_arith);
}

/// Subtraction, when it fits, is exact on values.
pub proof fn lemma_spec_sub_scaled(a: Quantity, b: Quantity)
    requires
        a.wf(),
        b.wf(),
        spec_sub(a, b) is Some,
    ensures
        spec_sub(a, b).unwrap().wf(),
        spec_sub(a, b).unwrap().scaled() == a.scaled() - b.scaled(),
{
    let c = common_scale(a, b);
    let r = (MAX_SCALE - c) as nat;
    lemma_lift_scaled(a, c);
    lemma_lift_scaled(b, c);
    assert((lift(a, c) - lift(b, c)) * pow10(r) == lift(a, c) * pow10(r) - lift(b, c) * pow10(r))
        by (nonlinear_arith);
}

impl Quantity {
    /// Exact subtraction; `None` signals that the difference does not fit.
    pub fn checked_sub(self, other: Quantity) -> (r: Option<Quantity>)
        requires
            self.wf(),
            other.wf(),
        ensures
            r == spec_sub(self, other),
            r is Some ==> r.unwrap().wf() && r.unwrap().scaled() == self.scaled() - other.scaled(),
    {
        let c = if self.scale >= other.scale {
            self.scale
        } else {
            other.scale
        };
        let f1 = pow10_exec(c - self.scale);
        let f2 = pow10_exec(c - other.scale);
        proof {
            lemma_pow10_concrete();
            lemma_pow10_increases((c - self.scale) as nat, MAX_SCALE as nat);
            lemma_pow10_increases((c - other.scale) as nat, MAX_SCALE as nat);
            assert(self.mantissa * f1 <= i64::MAX * pow10(MAX_SCALE as nat)
                && self.mantissa * f1 >= i64::MIN * pow10(MAX_SCALE as nat)) by (nonlinear_arith)
                requires
                    i64::MIN <= self.mantissa <= i64::MAX,
                    1 <= f1 <= pow10(MAX_SCALE as nat),
                    pow10(MAX_SCALE as nat) == 1000000000000000000,
            ;
            assert(other.mantissa * f2 <= i64::MAX * pow10(MAX_SCALE as nat)
                && other.mantissa * f2 >= i64::MIN * pow10(MAX_SCALE as nat)) by (nonlinear_arith)
                requires
                    i64::MIN <= other.mantissa <= i64::MAX,
                    1 <= f2 <= pow10(MAX_SCALE as nat),
                    pow10(MAX_SCALE as nat) == 1000000000000000000,
            ;
        }
        let p1 = (self.mantissa as i128) * f1;
        let p2 = (other.mantissa as i128) * f2;
        let sm = p1 - p2;
        if i64::MIN as i128 <= sm && sm <= i64::MAX as i128 {
            let q = Quantity { mantissa: sm as i64, scale: c };
            proof {
                lemma_spec_sub_scaled(self, other);
            }
            Some(q)
        } else {
            None
        }
    }

    /// Value comparison: `self <= other` as numbers, across scales.
    pub fn le(self, other: Quantity) -> (r: bool)
        requires
            self.wf(),
            other.wf(),
        ensures
            r == (self.scaled() <= other.scaled()),
    {
        let c = if self.scale >= other.scale {
            self.scale
        } else {
            other.scale
        };
        let f1 = pow10_exec(c - self.scale);
        let f2 = pow10_exec(c - other.scale);
        proof {
            lemma_pow10_concrete();
            lemma_pow10_increases((c - self.scale) as nat, MAX_SCALE as nat);
            lemma_pow10_increases((c - other.scale) as nat, MAX_SCALE as nat);
            assert(self.mantissa * f1 <= i64::MAX * pow10(MAX_SCALE as nat)
                && self.mantissa * f1 >= i64::MIN * pow10(MAX_SCALE as nat)) by (nonlinear_arith)
                requires
                    i64::MIN <= self.mantissa <= i64::MAX,
                    1 <= f1 <= pow10(MAX_SCALE as nat),
                    pow10(MAX_SCALE as nat) == 1000000000000000000,
            ;
            assert(other.mantissa * f2 <= i64::MAX * pow10(MAX_SCALE as nat)
                && other.mantissa * f2 >= i64::MIN * pow10(MAX_SCALE as nat)) by (nonlinear_arith)
                requires
                    i64::MIN <= other.mantissa <= i64::MAX,
                    1 <= f2 <= pow10(MAX_SCALE as nat),
                    pow10(MAX_SCALE as nat) == 1000000000000000000,
            ;
        }
        let p1 = (self.mantissa as i128) * f1;
        let p2 = (other.mantissa as i128) * f2;
        proof {
            lemma_lift_scaled(self, c);
            lemma_lift_scaled(other, c);
            let r = (MAX_SCALE - c) as nat;
            lemma_pow10_pos(r);
            assert((lift(self, c) <= lift(other, c)) == (lift(self, c) * pow10(r) <= lift(other, c)
                * pow10(r))) by (nonlinear_arith)
                requires
                    pow10(r) >= 1,
            ;
        }
        p1 <= p2
    }

    /// The integer part of the quantity, truncated toward zero.
    pub fn trunc(self) -> (r: i64)
        requires
            self.wf(),
        ensures
            r == trunc_div(self.mantissa as int, pow10(self.scale as nat)),
    {
        proof {
            lemma_pow10_concrete();
            lemma_pow10_increases(self.scale as nat, MAX_SCALE as nat);
            lemma_pow10_pos(self.scale as nat);
        }
        let p = pow10_exec(self.scale);
        let m = self.mantissa as i128;
        if m >= 0 {
            proof {
                assert((m as int) / (p as int) <= m as int) by (nonlinear_arith)
                    requires
                        m as int >= 0,
                        p as int >= 1,
                ;
            }
            (m / p) as i64
        } else {
            proof {
                assert((-(m as int)) / (p as int) <= -(m as int)) by (nonlinear_arith)
                    requires
                        -(m as int) >= 0,
                        p as int >= 1,
                ;
            }
            (-((-m) / p)) as i64
        }
    }
}

/// Integer division truncated toward zero, the rounding `trunc` uses.
pub open spec fn trunc_div(a: int, b: int) -> int
    recommends
        b >= 1,
{
    if a >= 0 {
        a / b
    } else {
        -((-a) / b)
    }
}

/// Concrete value of the largest scale factor, for bounds reasoning.
pub proof fn lemma_pow10_concrete()
    ensures
        pow10(MAX_SCALE as nat) == 1000000000000000000,
{
    reveal_with_fuel(pow10, 19);
}

/// `10^e` as a machine integer, for rescaling mantissas.
pub fn pow10_exec(e: u32) -> (r: i128)
    requires
        e <= MAX_SCALE,
    ensures
        r == pow10(e as nat),
        1 <= r,
{
    proof {
        lemma_pow10_concrete();
    }
    let mut r: i128 = 1;
    let mut i: u32 = 0;
    while i < e
        invariant
            i <= e <= MAX_SCALE,
            r == pow10(i as nat),
            1 <= r,
        decreases e - i,
    {
        proof {
            lemma_pow10_increases((i + 1) as nat, MAX_SCALE as nat);
            lemma_pow10_concrete();
            assert(pow10((i + 1) as nat) == 10 * pow10(i as nat));
        }
        r = r * 10;
        i = i + 1;
    }
    proof {
        lemma_pow10_pos(e as nat);
    }
    r
}

} // verus!
