//! Exact numbers: decimal coefficients and rational points.
//!
//! A world file coefficient is a decimal number, held as a mantissa and a
//! count of fraction digits ([`Dec`]); a point coordinate is an arbitrary
//! rational ([`Rat`]). All executable arithmetic is checked: a result is
//! returned only when the exact value fits in the underlying integers, and
//! each operation's contract says precisely when that is.

use vstd::prelude::*;

use crate::Error;

verus! {

/// Largest mantissa magnitude a [`Dec`] may carry: `10^30`.
pub const MAX_ABS: i128 = 1_000_000_000_000_000_000_000_000_000_000;

/// Largest number of fraction digits a [`Dec`] may carry.
pub const MAX_FRAC: u32 = 30;

/// `10^e`.
pub open spec fn pow10(e: nat) -> nat
    decreases e,
{
    if e == 0 {
        1
    } else {
        10 * pow10((e - 1) as nat)
    }
}

pub proof fn lemma_pow10_pos(e: nat)
    ensures
        pow10(e) >= 1,
    decreases e,
{
    if e > 0 {
        lemma_pow10_pos((e - 1) as nat);
    }
}

pub proof fn lemma_pow10_mono(e1: nat, e2: nat)
    requires
        e1 <= e2,
    ensures
        pow10(e1) <= pow10(e2),
    decreases e2,
{
    if e1 < e2 {
        lemma_pow10_mono(e1, (e2 - 1) as nat);
        lemma_pow10_pos((e2 - 1) as nat);
    }
}

pub proof fn lemma_pow10_max()
    ensures
        pow10(MAX_FRAC as nat) == MAX_ABS as int,
{
    reveal_with_fuel(pow10, 32);
}

/// A decimal number: the exact value `m / 10^e`.
///
/// `e` counts fraction digits, so the textual rendering of `Dec { m: -320, e: 1 }`
/// is `-32.0`. Two well-formed values are equal as numbers exactly when the
/// pairs `(m, e)` obtained from parsing equal text are equal, so derived
/// structural equality is what parsing and serialization preserve.
#[derive(Clone, Copy, Debug, PartialEq, Eq, Structural)]
pub struct Dec {
    /// Mantissa, with the sign of the number.
    pub m: i128,
    /// Number of fraction digits.
    pub e: u32,
}

impl Dec {
    /// Bounds under which rendering and arithmetic on the mantissa stay exact.
    pub open spec fn wf(self) -> bool {
        &&& -MAX_ABS <= self.m <= MAX_ABS
        &&& self.e <= MAX_FRAC
    }

    /// The value as a numerator/denominator pair: `m / 10^e`.
    pub open spec fn q(self) -> (int, int) {
        (self.m as int, pow10(self.e as nat) as int)
    }

    /// The only constructor that checks the bounds; `None` exactly when they
    /// fail.
    pub fn new(m: i128, e: u32) -> (r: Option<Dec>)
        ensures
            r is Some <==> (-MAX_ABS <= m <= MAX_ABS && e <= MAX_FRAC),
            r matches Some(d) ==> d == (Dec { m, e }) && d.wf(),
    {
        if -MAX_ABS <= m && m <= MAX_ABS && e <= MAX_FRAC {
            Some(Dec { m, e })
        } else {
            None
        }
    }

    /// The denominator `10^e` is positive.
    pub proof fn lemma_den_pos(self)
        ensures
            self.q().1 >= 1,
    {
        lemma_pow10_pos(self.e as nat);
    }

    /// The coefficient as a rational point coordinate.
    pub fn to_rat(&self) -> (r: Rat)
        requires
            self.wf(),
        ensures
            r.q() == self.q(),
            r.wf(),
    {
        let d = pow10_i128(self.e);
        Rat { n: self.m, d }
    }
}

/// `10^e` as a machine integer.
pub fn pow10_i128(e: u32) -> (r: i128)
    requires
        e <= MAX_FRAC,
    ensures
        r as int == pow10(e as nat),
        1 <= r <= MAX_ABS,
{
    proof {
        lemma_pow10_max();
    }
    let mut acc: i128 = 1;
    let mut k: u32 = 0;
    while k < e
        invariant
            k <= e <= MAX_FRAC,
            acc as int == pow10(k as nat),
            1 <= acc <= MAX_ABS,
        decreases e - k,
    {
        proof {
            lemma_pow10_mono((k + 1) as nat, MAX_FRAC as nat);
            lemma_pow10_max();
        }
        acc = acc * 10;
        k = k + 1;
    }
    proof {
        lemma_pow10_pos(e as nat);
        lemma_pow10_mono(e as nat, MAX_FRAC as nat);
        lemma_pow10_max();
    }
    acc
}

/// Whether an exact integer fits in the machine integers the arithmetic uses.
pub open spec fn in_i128(x: int) -> bool {
    i128::MIN <= x <= i128::MAX
}

/// Product of two rationals, as numerator/denominator pairs.
pub open spec fn qmul(a: (int, int), b: (int, int)) -> (int, int) {
    (a.0 * b.0, a.1 * b.1)
}

/// Sum of two rationals, over the product denominator.
pub open spec fn qadd(a: (int, int), b: (int, int)) -> (int, int) {
    (a.0 * b.1 + b.0 * a.1, a.1 * b.1)
}

/// Difference of two rationals, over the product denominator.
pub open spec fn qsub(a: (int, int), b: (int, int)) -> (int, int) {
    (a.0 * b.1 - b.0 * a.1, a.1 * b.1)
}

/// Quotient of two rationals: `(a.0/a.1) / (b.0/b.1)`.
pub open spec fn qdiv(a: (int, int), b: (int, int)) -> (int, int) {
    (a.0 * b.1, a.1 * b.0)
}

/// Value equality of two rationals with nonzero denominators.
pub open spec fn qeq(a: (int, int), b: (int, int)) -> bool {
    a.0 * b.1 == b.0 * a.1
}

/// When the exact product of two rationals fits the machine integers.
pub open spec fn qmul_fits(a: (int, int), b: (int, int)) -> bool {
    &&& in_i128(a.0 * b.0)
    &&& in_i128(a.1 * b.1)
}

/// When the exact sum, computed over the product denominator, fits.
pub open spec fn qadd_fits(a: (int, int), b: (int, int)) -> bool {
    &&& in_i128(a.0 * b.1)
    &&& in_i128(b.0 * a.1)
    &&& in_i128(a.0 * b.1 + b.0 * a.1)
    &&& in_i128(a.1 * b.1)
}

/// When the exact difference, computed over the product denominator, fits.
pub open spec fn qsub_fits(a: (int, int), b: (int, int)) -> bool {
    &&& in_i128(a.0 * b.1)
    &&& in_i128(b.0 * a.1)
    &&& in_i128(a.0 * b.1 - b.0 * a.1)
    &&& in_i128(a.1 * b.1)
}

/// When the exact quotient, with its denominator made positive, fits.
pub open spec fn qdiv_fits(a: (int, int), b: (int, int)) -> bool {
    &&& in_i128(a.0 * b.1)
    &&& in_i128(a.1 * b.0)
    &&& (a.1 * b.0 < 0 ==> in_i128(-(a.0 * b.1)) && in_i128(-(a.1 * b.0)))
}

/// An exact rational number `n / d`.
///
/// Point coordinates are rationals: forward mapping multiplies them by
/// decimal coefficients, and inverse mapping divides by the determinant,
/// which leaves the decimals.
#[derive(Clone, Copy, Debug)]
pub struct Rat {
    /// Numerator, with the sign of the number.
    pub n: i128,
    /// Denominator.
    pub d: i128,
}

impl Rat {
    /// A valid rational keeps its denominator positive.
    pub open spec fn wf(self) -> bool {
        self.d > 0
    }

    /// The value as a numerator/denominator pair.
    pub open spec fn q(self) -> (int, int) {
        (self.n as int, self.d as int)
    }

    /// The only constructor that checks the denominator; `None` exactly when
    /// it is not positive.
    pub fn new(n: i128, d: i128) -> (r: Option<Rat>)
        ensures
            r is Some <==> d > 0,
            r matches Some(v) ==> v == (Rat { n, d }) && v.wf(),
    {
        if d > 0 {
            Some(Rat { n, d })
        } else {
            None
        }
    }

    /// The rational with this integer value.
    pub fn from_int(n: i128) -> (r: Rat)
        ensures
            r.n == n,
            r.d == 1,
            r.wf(),
    {
        Rat { n, d: 1 }
    }

    /// Exact product; `None` exactly when it does not fit.
    pub fn times(&self, o: &Rat) -> (r: Option<Rat>)
        ensures
            r is Some <==> qmul_fits(self.q(), o.q()),
            r matches Some(v) ==> v.q() == qmul(self.q(), o.q()),
            r matches Some(v) ==> (self.wf() && o.wf() ==> v.wf()),
    {
        proof {
            if self.d > 0 && o.d > 0 {
                assert(self.d as int * o.d as int > 0) by (nonlinear_arith)
                    requires
                        self.d > 0,
                        o.d > 0,
                ;
            }
        }
        match (self.n.checked_mul(o.n), self.d.checked_mul(o.d)) {
            (Some(n), Some(d)) => Some(Rat { n, d }),
            _ => None,
        }
    }

    /// Exact sum over the product denominator; `None` exactly when some
    /// intermediate does not fit.
    pub fn plus(&self, o: &Rat) -> (r: Option<Rat>)
        ensures
            r is Some <==> qadd_fits(self.q(), o.q()),
            r matches Some(v) ==> v.q() == qadd(self.q(), o.q()),
            r matches Some(v) ==> (self.wf() && o.wf() ==> v.wf()),
    {
        proof {
            if self.d > 0 && o.d > 0 {
                assert(self.d as int * o.d as int > 0) by (nonlinear_arith)
                    requires
                        self.d > 0,
                        o.d > 0,
                ;
            }
        }
        let t1 = match self.n.checked_mul(o.d) {
            Some(x) => x,
            None => {
                return None;
            },
        };
        let t2 = match o.n.checked_mul(self.d) {
            Some(x) => x,
            None => {
                return None;
            },
        };
        let n = match t1.checked_add(t2) {
            Some(x) => x,
            None => {
                return None;
            },
        };
        let d = match self.d.checked_mul(o.d) {
            Some(x) => x,
            None => {
                return None;
            },
        };
        Some(Rat { n, d })
    }

    /// Exact difference over the product denominator; `None` exactly when
    /// some intermediate does not fit.
    pub fn minus(&self, o: &Rat) -> (r: Option<Rat>)
        ensures
            r is Some <==> qsub_fits(self.q(), o.q()),
            r matches Some(v) ==> v.q() == qsub(self.q(), o.q()),
            r matches Some(v) ==> (self.wf() && o.wf() ==> v.wf()),
    {
        proof {
            if self.d > 0 && o.d > 0 {
                assert(self.d as int * o.d as int > 0) by (nonlinear_arith)
                    requires
                        self.d > 0,
                        o.d > 0,
                ;
            }
        }
        let t1 = match self.n.checked_mul(o.d) {
            Some(x) => x,
            None => {
                return None;
            },
        };
        let t2 = match o.n.checked_mul(self.d) {
            Some(x) => x,
            None => {
                return None;
            },
        };
        let n = match t1.checked_sub(t2) {
            Some(x) => x,
            None => {
                return None;
            },
        };
        let d = match self.d.checked_mul(o.d) {
            Some(x) => x,
            None => {
                return None;
            },
        };
        Some(Rat { n, d })
    }

    /// Exact quotient, with the result's denominator made positive; `None`
    /// exactly when some intermediate does not fit.
    pub fn over(&self, o: &Rat) -> (r: Option<Rat>)
        requires
            self.d != 0,
            o.n != 0,
        ensures
            r is Some <==> qdiv_fits(self.q(), o.q()),
            r matches Some(v) ==> qeq(v.q(), qdiv(self.q(), o.q())) && v.wf(),
    {
        proof {
            assert(self.d as int * o.n as int != 0) by (nonlinear_arith)
                requires
                    self.d != 0,
                    o.n != 0,
            ;
        }
        let n0 = match self.n.checked_mul(o.d) {
            Some(x) => x,
            None => {
                return None;
            },
        };
        let d0 = match self.d.checked_mul(o.n) {
            Some(x) => x,
            None => {
                return None;
            },
        };
        if d0 < 0 {
            let n1 = match 0i128.checked_sub(n0) {
                Some(x) => x,
                None => {
                    return None;
                },
            };
            let d1 = match 0i128.checked_sub(d0) {
                Some(x) => x,
                None => {
                    return None;
                },
            };
            proof {
                assert((n1 as int) * (d0 as int) == (n0 as int) * (d1 as int))
                    by (nonlinear_arith)
                    requires
                        n1 as int == -(n0 as int),
                        d1 as int == -(d0 as int),
                ;
            }
            Some(Rat { n: n1, d: d1 })
        } else {
            Some(Rat { n: n0, d: d0 })
        }
    }

    /// Whether two rationals denote the same number; `Err(Overflow)` exactly
    /// when a cross product does not fit.
    pub fn same_value(&self, o: &Rat) -> (r: Result<bool, Error>)
        ensures
            r matches Ok(b) ==> (b <==> qeq(self.q(), o.q())),
            r is Ok <==> in_i128(self.n as int * o.d as int) && in_i128(
                o.n as int * self.d as int,
            ),
            r is Err ==> r == Err::<bool, Error>(Error::Overflow),
    {
        match (self.n.checked_mul(o.d), o.n.checked_mul(self.d)) {
            (Some(x), Some(y)) => Ok(x == y),
            _ => Err(Error::Overflow),
        }
    }
}

} // verus!
