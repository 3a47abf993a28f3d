use vstd::prelude::*;

use crate::math::rnd_div;

verus! {

/// An exactly represented decimal literal: the number `m * 10^e`.
///
/// The decoder stores every real literal of a document in this form, so
/// that no precision is lost between the text and the value tree: the
/// mantissa keeps all written digits and the exponent places the decimal
/// point.  Two literals are the same value of this type exactly when they
/// carry the same digits and the same scale.
#[derive(PartialEq, Eq, Structural, Clone, Copy, Debug)]
pub struct Dec {
    pub m: i64,
    pub e: i64,
}

pub open spec fn pow10(n: nat) -> nat
    decreases n,
{
    if n == 0 {
        1
    } else {
        10 * pow10((n - 1) as nat)
    }
}

/// Largest coordinate magnitude, in micro-units, that a document may
/// carry into the geometry.
pub const COORD_LIMIT: i64 = 20_000_000_000;

/// The micro-unit count closest to `m * 10^e` units, ties away from zero.
pub open spec fn fixed_of(d: Dec) -> int {
    let k = d.e + 6;
    if k >= 0 {
        d.m * pow10(k as nat) as int
    } else {
        rnd_div(d.m as int, pow10((-k) as nat) as int)
    }
}

proof fn lemma_pow10_vals()
    ensures
        pow10(18) == 1_000_000_000_000_000_000,
        pow10(19) == 10_000_000_000_000_000_000,
        pow10(20) == 100_000_000_000_000_000_000,
{
    reveal_with_fuel(pow10, 22);
}

proof fn lemma_pow10_ge(n: nat)
    ensures
        pow10(n) >= 1,
        n >= 1 ==> pow10(n) >= 10,
    decreases n,
{
    if n >= 1 {
        lemma_pow10_ge((n - 1) as nat);
    }
}

proof fn lemma_pow10_big(n: nat)
    requires
        n >= 19,
    ensures
        pow10(n) >= pow10(19),
    decreases n,
{
    if n > 19 {
        lemma_pow10_big((n - 1) as nat);
    }
}

impl Dec {
    /// Converts to micro-units, refusing a value beyond the working range
    /// of the geometry.
    pub fn to_fixed(&self) -> (r: Option<i64>)
        ensures
            match r {
                Some(v) => v as int == fixed_of(*self) && -COORD_LIMIT <= v as int <= COORD_LIMIT,
                None => fixed_of(*self) > COORD_LIMIT as int || fixed_of(*self) < -(
                COORD_LIMIT as int),
            },
    {
        if self.m == 0 {
            proof {
                let k = self.e + 6;
                if k < 0 {
                    lemma_pow10_ge((-k) as nat);
                    let b = pow10((-k) as nat) as int;
                    assert((0 + b / 2) / b == 0) by (nonlinear_arith)
                        requires b >= 1;
                }
                assert(fixed_of(*self) == 0) by {
                    if self.e + 6 >= 0 {
                        assert(0 * pow10((self.e + 6) as nat) as int == 0) by (nonlinear_arith);
                    }
                };
            }
            return Some(0);
        }
        let k: i128 = self.e as i128 + 6;
        if k >= 0 {
            if k > 18 {
                proof {
                    let kn = (self.e + 6) as nat;
                    lemma_pow10_big(kn);
                    lemma_pow10_ge(19);
                    lemma_pow10_vals();
                    let p = pow10(kn) as int;
                    if self.m >= 1 {
                        assert(self.m * p >= p) by (nonlinear_arith)
                            requires self.m >= 1, p >= 0;
                    } else {
                        assert(self.m * p <= -p) by (nonlinear_arith)
                            requires self.m <= -1, p >= 0;
                    }
                }
                return None;
            }
            let mut p: i64 = 1;
            let mut t: i128 = k;
            proof {
                assert(pow10(0) == 1);
            }
            while t > 0
                invariant
                    0 <= t <= k <= 18,
                    p as int == pow10((k - t) as nat) as int,
                    1 <= p <= 1_000_000_000_000_000_000,
                decreases t,
            {
                proof {
                    lemma_pow10_ge((k - t + 1) as nat);
                    lemma_pow10_vals();
                    assert(pow10((k - t + 1) as nat) <= pow10(18)) by {
                        lemma_pow10_mono((k - t + 1) as nat, 18);
                    };
                }
                p = p * 10;
                t = t - 1;
            }
            proof {
                let m = self.m as int;
                let pi = p as int;
                assert(-9_300_000_000_000_000_000 * 1_000_000_000_000_000_000 <= m * pi <= 9_300_000_000_000_000_000 * 1_000_000_000_000_000_000)
                    by (nonlinear_arith)
                    requires
                        -9_300_000_000_000_000_000 <= m <= 9_300_000_000_000_000_000,
                        1 <= pi <= 1_000_000_000_000_000_000,
                ;
            }
            let v: i128 = (self.m as i128) * (p as i128);
            if v > 20_000_000_000 || v < -20_000_000_000 {
                None
            } else {
                Some(v as i64)
            }
        } else {
            let kk: i128 = -k;
            if kk > 19 {
                proof {
                    let b = pow10((-(self.e + 6)) as nat) as int;
                    lemma_pow10_mono(20, (-(self.e + 6)) as nat);
                    lemma_pow10_ge((-(self.e + 6)) as nat);
                    lemma_pow10_vals();
                    let m = self.m as int;
                    assert((m + b / 2) / b == 0 && (-m + b / 2) / b == 0) by (nonlinear_arith)
                        requires
                            b >= 100_000_000_000_000_000_000,
                            -9_300_000_000_000_000_000 <= m <= 9_300_000_000_000_000_000,
                    ;
                }
                return Some(0);
            }
            let mut b: i128 = 1;
            let mut t: i128 = kk;
            proof {
                assert(pow10(0) == 1);
            }
            while t > 0
                invariant
                    0 <= t <= kk <= 19,
                    b as int == pow10((kk - t) as nat) as int,
                    1 <= b <= 10_000_000_000_000_000_000,
                decreases t,
            {
                proof {
                    lemma_pow10_ge((kk - t + 1) as nat);
                    lemma_pow10_vals();
                    assert(pow10((kk - t + 1) as nat) <= pow10(19)) by {
                        lemma_pow10_mono((kk - t + 1) as nat, 19);
                    };
                }
                b = b * 10;
                t = t - 1;
            }
            let neg = self.m < 0;
            let ma: i128 = if neg {
                -(self.m as i128)
            } else {
                self.m as i128
            };
            let q: i128 = (ma + b / 2) / b;
            let v: i128 = if neg {
                -q
            } else {
                q
            };
            proof {
                let mai = ma as int;
                let bi = b as int;
                assert(q as int >= 0 && q as int <= mai + bi / 2) by (nonlinear_arith)
                    requires
                        mai >= 0,
                        bi >= 1,
                        q as int == (mai + bi / 2) / bi,
                ;
            }
            if v > 20_000_000_000 || v < -20_000_000_000 {
                None
            } else {
                Some(v as i64)
            }
        }
    }
}

proof fn lemma_pow10_mono(a: nat, b: nat)
    requires
        a <= b,
    ensures
        pow10(a) <= pow10(b),
    decreases b,
{
    if a < b {
        lemma_pow10_mono(a, (b - 1) as nat);
        lemma_pow10_ge((b - 1) as nat);
    }
}

} // verus!
