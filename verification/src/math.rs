use vstd::prelude::*;

verus! {

// ---------------------------------------------------------------------------
// Fixed-point 3-vector and 3x3 matrix kernel.
//
// A coordinate is a signed count of micro-units: the real value x is stored
// as the integer x * SCALE.  All products are computed in a double-width
// word and scaled back down, truncating toward zero, so every contract
// below states the exact integer the operation returns.  The comparison
// tolerances of the geometry (a ratio test at 1e-9 and a coincidence test
// at 1e-14 of a unit) both lie below the resolution of a micro-unit, so at
// this scale the ratio test compares exact cross-products and coincidence
// is exact equality.
// ---------------------------------------------------------------------------

/// Micro-units per unit.
pub const SCALE: i64 = 1_000_000;

/// Largest coordinate magnitude the kernel accepts, in micro-units.  All
/// double-width sums of products of values within this limit stay inside
/// the 128-bit word, and every scaled-down result fits the 64-bit word.
pub const LIMIT: i64 = 1_500_000_000_000;

/// Division that truncates toward zero, the rounding of the kernel.
pub open spec fn div_trunc(a: int, b: int) -> int {
    if a >= 0 {
        a / b
    } else {
        -((-a) / b)
    }
}

/// `a / b` rounded to the nearest integer, ties away from zero.
pub open spec fn rnd_div(a: int, b: int) -> int {
    if a >= 0 {
        (a + b / 2) / b
    } else {
        -((-a + b / 2) / b)
    }
}

pub proof fn lemma_div_trunc_bound(a: int, b: int, m: int)
    requires
        b > 0,
        -m <= a <= m,
        0 <= m,
    ensures
        -(m / b) <= div_trunc(a, b) <= m / b,
{
    if a >= 0 {
        vstd::arithmetic::div_mod::lemma_div_is_ordered(a, m, b);
        assert(a / b >= 0) by (nonlinear_arith)
            requires a >= 0, b > 0;
    } else {
        vstd::arithmetic::div_mod::lemma_div_is_ordered(-a, m, b);
        assert((-a) / b >= 0) by (nonlinear_arith)
            requires -a >= 0, b > 0;
    }
}

/// Divides a double-width value by `SCALE`, truncating toward zero.
fn div_scale(a: i128) -> (r: i128)
    requires
        a > i128::MIN,
    ensures
        r as int == div_trunc(a as int, SCALE as int),
        -(a as int) <= r * (SCALE as int) <= a as int || a as int <= r * (SCALE as int) <= -(
        a as int),
{
    let r: i128 = if a < 0 {
        -((((-a) as u128) / 1_000_000u128) as i128)
    } else {
        ((a as u128) / 1_000_000u128) as i128
    };
    proof {
        if a >= 0 {
            let q = (a as int) / (SCALE as int);
            assert(q * (SCALE as int) <= a as int && q >= 0) by (nonlinear_arith)
                requires q == (a as int) / (SCALE as int), a as int >= 0;
        } else {
            let q = (-(a as int)) / (SCALE as int);
            assert(q * (SCALE as int) <= -(a as int) && q >= 0) by (nonlinear_arith)
                requires q == (-(a as int)) / (SCALE as int), -(a as int) >= 0;
        }
    }
    r
}

#[derive(PartialEq, Debug, Clone, Copy)]
pub struct V3(pub [i64; 3]);

impl V3 {
    pub open spec fn sx(self) -> int {
        self.0[0] as int
    }

    pub open spec fn sy(self) -> int {
        self.0[1] as int
    }

    pub open spec fn sz(self) -> int {
        self.0[2] as int
    }

    /// Every component lies within the kernel's working range.
    pub open spec fn bounded(self) -> bool {
        &&& -LIMIT <= self.sx() <= LIMIT
        &&& -LIMIT <= self.sy() <= LIMIT
        &&& -LIMIT <= self.sz() <= LIMIT
    }

    pub fn x(&self) -> (r: i64)
        ensures
            r as int == self.sx(),
    {
        self.0[0]
    }

    pub fn y(&self) -> (r: i64)
        ensures
            r as int == self.sy(),
    {
        self.0[1]
    }

    pub fn z(&self) -> (r: i64)
        ensures
            r as int == self.sz(),
    {
        self.0[2]
    }

    pub fn new(x: i64, y: i64, z: i64) -> (r: V3)
        ensures
            r.sx() == x as int,
            r.sy() == y as int,
            r.sz() == z as int,
    {
        V3([x, y, z])
    }

    pub open spec fn spec_dot(self, v: V3) -> int {
        div_trunc(self.sx() * v.sx() + self.sy() * v.sy() + self.sz() * v.sz(), SCALE as int)
    }

    /// The scalar product, scaled back to micro-units.
    pub fn dot(&self, v: &Self) -> (r: i64)
        requires
            self.bounded(),
            v.bounded(),
        ensures
            r as int == self.spec_dot(*v),
    {
        proof {
            lemma_mul_limits(self.sx(), v.sx());
            lemma_mul_limits(self.sy(), v.sy());
            lemma_mul_limits(self.sz(), v.sz());
        }
        let s: i128 = (self.0[0] as i128) * (v.0[0] as i128) + (self.0[1] as i128) * (v.0[1]
            as i128) + (self.0[2] as i128) * (v.0[2] as i128);
        proof {
            lemma_div_trunc_bound(s as int, SCALE as int, 6_750_000_000_000_000_000_000_000);
        }
        div_scale(s) as i64
    }

    pub open spec fn spec_cross(self, v: V3) -> (int, int, int) {
        (
            div_trunc(self.sy() * v.sz() - self.sz() * v.sy(), SCALE as int),
            div_trunc(self.sz() * v.sx() - self.sx() * v.sz(), SCALE as int),
            div_trunc(self.sx() * v.sy() - self.sy() * v.sx(), SCALE as int),
        )
    }

    /// The vector product, each component scaled back to micro-units.
    pub fn cross(&self, v: &Self) -> (r: V3)
        requires
            self.bounded(),
            v.bounded(),
        ensures
            (r.sx(), r.sy(), r.sz()) == self.spec_cross(*v),
    {
        proof {
            lemma_mul_limits(self.sy(), v.sz());
            lemma_mul_limits(self.sz(), v.sy());
            lemma_mul_limits(self.sz(), v.sx());
            lemma_mul_limits(self.sx(), v.sz());
            lemma_mul_limits(self.sx(), v.sy());
            lemma_mul_limits(self.sy(), v.sx());
        }
        let cx: i128 = (self.0[1] as i128) * (v.0[2] as i128) - (self.0[2] as i128) * (v.0[1]
            as i128);
        let cy: i128 = (self.0[2] as i128) * (v.0[0] as i128) - (self.0[0] as i128) * (v.0[2]
            as i128);
        let cz: i128 = (self.0[0] as i128) * (v.0[1] as i128) - (self.0[1] as i128) * (v.0[0]
            as i128);
        proof {
            lemma_div_trunc_bound(cx as int, SCALE as int, 4_500_000_000_000_000_000_000_000);
            lemma_div_trunc_bound(cy as int, SCALE as int, 4_500_000_000_000_000_000_000_000);
            lemma_div_trunc_bound(cz as int, SCALE as int, 4_500_000_000_000_000_000_000_000);
        }
        V3([div_scale(cx) as i64, div_scale(cy) as i64, div_scale(cz) as i64])
    }

    pub open spec fn spec_scale(self, s: int) -> (int, int, int) {
        (
            div_trunc(self.sx() * s, SCALE as int),
            div_trunc(self.sy() * s, SCALE as int),
            div_trunc(self.sz() * s, SCALE as int),
        )
    }

    /// Multiplies by the micro-unit factor `s`, scaling back down.
    pub fn scale(&self, s: i64) -> (r: V3)
        requires
            self.bounded(),
            -LIMIT <= s as int <= LIMIT,
        ensures
            (r.sx(), r.sy(), r.sz()) == self.spec_scale(s as int),
    {
        proof {
            lemma_mul_limits(self.sx(), s as int);
            lemma_mul_limits(self.sy(), s as int);
            lemma_mul_limits(self.sz(), s as int);
        }
        let px: i128 = (self.0[0] as i128) * (s as i128);
        let py: i128 = (self.0[1] as i128) * (s as i128);
        let pz: i128 = (self.0[2] as i128) * (s as i128);
        proof {
            lemma_div_trunc_bound(px as int, SCALE as int, 2_250_000_000_000_000_000_000_000);
            lemma_div_trunc_bound(py as int, SCALE as int, 2_250_000_000_000_000_000_000_000);
            lemma_div_trunc_bound(pz as int, SCALE as int, 2_250_000_000_000_000_000_000_000);
        }
        V3([div_scale(px) as i64, div_scale(py) as i64, div_scale(pz) as i64])
    }

    /// Componentwise difference.
    pub fn sub(&self, v: &Self) -> (r: V3)
        requires
            self.bounded(),
            v.bounded(),
        ensures
            r.sx() == self.sx() - v.sx(),
            r.sy() == self.sy() - v.sy(),
            r.sz() == self.sz() - v.sz(),
            -2 * LIMIT <= r.sx() <= 2 * LIMIT,
            -2 * LIMIT <= r.sy() <= 2 * LIMIT,
            -2 * LIMIT <= r.sz() <= 2 * LIMIT,
    {
        V3([self.0[0] - v.0[0], self.0[1] - v.0[1], self.0[2] - v.0[2]])
    }

    /// Coincidence at the kernel's resolution: the stated tolerance of the
    /// geometry (1e-14 of a unit) is below one micro-unit, so two stored
    /// vectors coincide exactly when their components are equal.
    pub fn approx(&self, v: &Self) -> (r: bool)
        ensures
            r == (self.sx() == v.sx() && self.sy() == v.sy() && self.sz() == v.sz()),
    {
        self.0[0] == v.0[0] && self.0[1] == v.0[1] && self.0[2] == v.0[2]
    }

    /// Rounds each component to the nearest hundredth of a unit, ties away
    /// from zero.
    pub fn round(&self) -> (r: V3)
        requires
            self.bounded(),
        ensures
            r.sx() == rnd_div(self.sx(), 10_000) * 10_000,
            r.sy() == rnd_div(self.sy(), 10_000) * 10_000,
            r.sz() == rnd_div(self.sz(), 10_000) * 10_000,
    {
        V3([round_to(self.0[0]), round_to(self.0[1]), round_to(self.0[2])])
    }

    /// The ratio test of the geometry: two directions are independent
    /// unless, at the first axis where both have a nonzero component, the
    /// cross-products of every other pair of components vanish within the
    /// stated tolerance (1e-9 of a unit per unit of the reference
    /// component).
    pub fn are_independent(&self, v: &Self) -> (r: bool)
        requires
            self.bounded(),
            v.bounded(),
        ensures
            r == spec_independent(*self, *v),
    {
        let a = self;
        let b = v;
        let mut i: usize = 0;
        while i < 3
            invariant
                0 <= i <= 3,
                a == self,
                b == v,
                a.bounded(),
                b.bounded(),
                forall|k: int| 0 <= k < i ==> !(a.0[k] != 0 && b.0[k] != 0),
            decreases 3 - i,
        {
            if a.0[i] != 0 && b.0[i] != 0 {
                let mut dep = true;
                let mut j: usize = 0;
                while j < 3
                    invariant
                        0 <= j <= 3,
                        i < 3,
                        a == self,
                        b == v,
                        a.bounded(),
                        b.bounded(),
                        dep == forall|t: int|
                            0 <= t < j ==> cross_small(
                                a.0[t] as int,
                                b.0[t] as int,
                                a.0[i as int] as int,
                                b.0[i as int] as int,
                            ),
                    decreases 3 - j,
                {
                    proof {
                        lemma_mul_limits(a.0[j as int] as int, b.0[i as int] as int);
                        lemma_mul_limits(b.0[j as int] as int, a.0[i as int] as int);
                        lemma_mul_limits(b.0[i as int] as int, 1);
                    }
                    let c: i128 = (a.0[j] as i128) * (b.0[i] as i128) - (b.0[j] as i128) * (a.0[i]
                        as i128);
                    let ca: i128 = if c < 0 {
                        -c
                    } else {
                        c
                    };
                    let bi: i128 = b.0[i] as i128;
                    let ba: i128 = if bi < 0 {
                        -bi
                    } else {
                        bi
                    };
                    let ok = ca <= (LIMIT as i128) * (LIMIT as i128) * 4 && ca * 100_000_000 < ba;
                    proof {
                        lemma_cross_small_equiv(
                            a.0[j as int] as int,
                            b.0[j as int] as int,
                            a.0[i as int] as int,
                            b.0[i as int] as int,
                            c as int,
                            ca as int,
                            ba as int,
                        );
                    }
                    if !ok {
                        dep = false;
                    }
                    j = j + 1;
                }
                proof {
                    let ai = a.0[i as int] as int;
                    let bi = b.0[i as int] as int;
                    let c0 = cross_small(a.0[0] as int, b.0[0] as int, ai, bi);
                    let c1 = cross_small(a.0[1] as int, b.0[1] as int, ai, bi);
                    let c2 = cross_small(a.0[2] as int, b.0[2] as int, ai, bi);
                    if c0 && c1 && c2 {
                        assert forall|t: int|
                            0 <= t < 3 implies cross_small(
                            a.0[t] as int,
                            b.0[t] as int,
                            ai,
                            bi,
                        ) by {
                            if t == 0 {
                                assert(cross_small(a.0[0] as int, b.0[0] as int, ai, bi));
                            } else if t == 1 {
                                assert(cross_small(a.0[1] as int, b.0[1] as int, ai, bi));
                            } else {
                                assert(cross_small(a.0[2] as int, b.0[2] as int, ai, bi));
                            }
                        }
                        assert(dep);
                    } else {
                        assert(!dep);
                    }
                    assert(dep == (c0 && c1 && c2));
                    if i == 0 {
                        assert(spec_independent(*a, *b) == !(c0 && c1 && c2));
                    } else if i == 1 {
                        assert(!(a.0[0] != 0 && b.0[0] != 0));
                        assert(spec_independent(*a, *b) == !(c0 && c1 && c2));
                    } else {
                        assert(!(a.0[0] != 0 && b.0[0] != 0));
                        assert(!(a.0[1] != 0 && b.0[1] != 0));
                        assert(spec_independent(*a, *b) == !(c0 && c1 && c2));
                    }
                    assert(!dep == spec_independent(*self, *v));
                }
                return !dep;
            }
            i = i + 1;
        }
        true
    }
}

/// `|aj * bi - bj * ai| * 1e8 < |bi|`: the two pairs are proportional
/// within the ratio tolerance.
pub open spec fn cross_small(aj: int, bj: int, ai: int, bi: int) -> bool {
    abs_int(aj * bi - bj * ai) * 100_000_000 < abs_int(bi)
}

pub open spec fn abs_int(a: int) -> int {
    if a >= 0 {
        a
    } else {
        -a
    }
}

/// The first axis where both vectors have a nonzero component decides;
/// with no such axis the vectors count as independent.
pub open spec fn spec_independent(a: V3, b: V3) -> bool {
    if a.sx() != 0 && b.sx() != 0 {
        !(cross_small(a.sx(), b.sx(), a.sx(), b.sx()) && cross_small(a.sy(), b.sy(), a.sx(), b.sx())
            && cross_small(a.sz(), b.sz(), a.sx(), b.sx()))
    } else if a.sy() != 0 && b.sy() != 0 {
        !(cross_small(a.sx(), b.sx(), a.sy(), b.sy()) && cross_small(a.sy(), b.sy(), a.sy(), b.sy())
            && cross_small(a.sz(), b.sz(), a.sy(), b.sy()))
    } else if a.sz() != 0 && b.sz() != 0 {
        !(cross_small(a.sx(), b.sx(), a.sz(), b.sz()) && cross_small(a.sy(), b.sy(), a.sz(), b.sz())
            && cross_small(a.sz(), b.sz(), a.sz(), b.sz()))
    } else {
        true
    }
}

proof fn lemma_cross_small_equiv(aj: int, bj: int, ai: int, bi: int, c: int, ca: int, ba: int)
    requires
        c == aj * bi - bj * ai,
        ca == abs_int(c),
        ba == abs_int(bi),
        -LIMIT <= aj <= LIMIT,
        -LIMIT <= bj <= LIMIT,
        -LIMIT <= ai <= LIMIT,
        -LIMIT <= bi <= LIMIT,
    ensures
        ((ca <= (LIMIT as int) * (LIMIT as int) * 4 && ca * 100_000_000 < ba) == cross_small(
            aj,
            bj,
            ai,
            bi,
        )),
        ca * 100_000_000 < 0x7fff_ffff_ffff_ffff_ffff_ffff_ffff_ffff,
{
    lemma_mul_limits(aj, bi);
    lemma_mul_limits(bj, ai);
    assert(ca <= 2 * ((LIMIT as int) * (LIMIT as int)));
    assert(ca * 100_000_000 <= 2 * ((LIMIT as int) * (LIMIT as int)) * 100_000_000)
        by (nonlinear_arith)
        requires ca <= 2 * ((LIMIT as int) * (LIMIT as int)), ca >= 0;
    if ca <= (LIMIT as int) * (LIMIT as int) * 4 {
    } else {
        assert(ba <= LIMIT as int);
        assert(ca * 100_000_000 >= ca) by (nonlinear_arith)
            requires ca >= 0;
    }
}

/// The product of two values within the kernel range stays within the
/// double-width word.
pub proof fn lemma_mul_limits(a: int, b: int)
    requires
        -LIMIT <= a <= LIMIT,
        -LIMIT <= b <= LIMIT,
    ensures
        -((LIMIT as int) * (LIMIT as int)) <= a * b <= (LIMIT as int) * (LIMIT as int),
{
    assert(-((LIMIT as int) * (LIMIT as int)) <= a * b <= (LIMIT as int) * (LIMIT as int))
        by (nonlinear_arith)
        requires -LIMIT <= a <= LIMIT, -LIMIT <= b <= LIMIT;
}

/// Rounds to the nearest multiple of a hundredth of a unit.
fn round_to(x: i64) -> (r: i64)
    requires
        -LIMIT <= x as int <= LIMIT,
    ensures
        r as int == rnd_div(x as int, 10_000) * 10_000,
{
    if x >= 0 {
        let q = (x + 5_000) / 10_000;
        proof {
            assert(q * 10_000 <= x + 5_000 && q >= 0) by (nonlinear_arith)
                requires q == ((x as int) + 5_000) / 10_000, x as int >= 0;
        }
        q * 10_000
    } else {
        let q = (-x + 5_000) / 10_000;
        proof {
            assert(q * 10_000 <= -(x as int) + 5_000 && q >= 0) by (nonlinear_arith)
                requires q == (-(x as int) + 5_000) / 10_000, -(x as int) >= 0;
        }
        -(q * 10_000)
    }
}

#[derive(PartialEq, Debug, Clone, Copy)]
pub struct Mat3x3(pub [V3; 3]);

impl Mat3x3 {
    pub open spec fn entry(self, i: int, j: int) -> int {
        self.0[i].0[j] as int
    }

    pub open spec fn bounded(self) -> bool {
        forall|i: int| 0 <= i < 3 ==> (#[trigger] self.0[i]).bounded()
    }

    pub open spec fn spec_prod_entry(self, m: Mat3x3, i: int, j: int) -> int {
        div_trunc(
            self.entry(i, 0) * m.entry(0, j) + self.entry(i, 1) * m.entry(1, j) + self.entry(i, 2)
                * m.entry(2, j),
            SCALE as int,
        )
    }

    /// The matrix product, each entry scaled back to micro-units.
    pub fn prod(&self, m: &Self) -> (r: Mat3x3)
        requires
            self.bounded(),
            m.bounded(),
        ensures
            forall|i: int, j: int|
                0 <= i < 3 && 0 <= j < 3 ==> r.entry(i, j) == self.spec_prod_entry(*m, i, j),
    {
        let mut rows: [V3; 3] = [V3([0, 0, 0]), V3([0, 0, 0]), V3([0, 0, 0])];
        let mut i: usize = 0;
        while i < 3
            invariant
                0 <= i <= 3,
                self.bounded(),
                m.bounded(),
                forall|a: int, b: int|
                    0 <= a < i && 0 <= b < 3 ==> rows[a].0[b] as int == self.spec_prod_entry(
                        *m,
                        a,
                        b,
                    ),
            decreases 3 - i,
        {
            let mut row: [i64; 3] = [0, 0, 0];
            let mut j: usize = 0;
            while j < 3
                invariant
                    0 <= j <= 3,
                    i < 3,
                    self.bounded(),
                    m.bounded(),
                    forall|b: int|
                        0 <= b < j ==> row[b] as int == self.spec_prod_entry(*m, i as int, b),
                decreases 3 - j,
            {
                proof {
                    lemma_mul_limits(self.entry(i as int, 0), m.entry(0, j as int));
                    lemma_mul_limits(self.entry(i as int, 1), m.entry(1, j as int));
                    lemma_mul_limits(self.entry(i as int, 2), m.entry(2, j as int));
                }
                let s: i128 = (self.0[i].0[0] as i128) * (m.0[0].0[j] as i128) + (self.0[i].0[1]
                    as i128) * (m.0[1].0[j] as i128) + (self.0[i].0[2] as i128) * (m.0[2].0[j]
                    as i128);
                proof {
                    lemma_div_trunc_bound(
                        s as int,
                        SCALE as int,
                        6_750_000_000_000_000_000_000_000,
                    );
                }
                row[j] = div_scale(s) as i64;
                j = j + 1;
            }
            rows[i] = V3(row);
            i = i + 1;
        }
        Mat3x3(rows)
    }

    pub open spec fn spec_prod_vec_entry(self, v: V3, i: int) -> int {
        div_trunc(
            self.entry(i, 0) * v.sx() + self.entry(i, 1) * v.sy() + self.entry(i, 2) * v.sz(),
            SCALE as int,
        )
    }

    /// The matrix applied to a vector, scaled back to micro-units.
    pub fn prod_vec(&self, v: &V3) -> (r: V3)
        requires
            self.bounded(),
            v.bounded(),
        ensures
            r.sx() == self.spec_prod_vec_entry(*v, 0),
            r.sy() == self.spec_prod_vec_entry(*v, 1),
            r.sz() == self.spec_prod_vec_entry(*v, 2),
    {
        let mut out: [i64; 3] = [0, 0, 0];
        let mut i: usize = 0;
        while i < 3
            invariant
                0 <= i <= 3,
                self.bounded(),
                v.bounded(),
                forall|a: int| 0 <= a < i ==> out[a] as int == self.spec_prod_vec_entry(*v, a),
            decreases 3 - i,
        {
            proof {
                lemma_mul_limits(self.entry(i as int, 0), v.sx());
                lemma_mul_limits(self.entry(i as int, 1), v.sy());
                lemma_mul_limits(self.entry(i as int, 2), v.sz());
            }
            let s: i128 = (self.0[i].0[0] as i128) * (v.0[0] as i128) + (self.0[i].0[1] as i128)
                * (v.0[1] as i128) + (self.0[i].0[2] as i128) * (v.0[2] as i128);
            proof {
                lemma_div_trunc_bound(s as int, SCALE as int, 6_750_000_000_000_000_000_000_000);
            }
            out[i] = div_scale(s) as i64;
            i = i + 1;
        }
        V3(out)
    }
}

} // verus!

verus! {

/// A vector and any nonzero integer multiple of it are dependent: at the
/// first axis where the vector is nonzero the multiple is nonzero too,
/// and every cross-product of component pairs vanishes.
pub proof fn lemma_scaled_dependent(v: V3, w: V3, k: int)
    requires
        k != 0,
        w.sx() == v.sx() * k,
        w.sy() == v.sy() * k,
        w.sz() == v.sz() * k,
        !(v.sx() == 0 && v.sy() == 0 && v.sz() == 0),
    ensures
        !spec_independent(v, w),
{
    lemma_cross_zero(v.sx(), v.sx(), k);
    lemma_cross_zero(v.sy(), v.sx(), k);
    lemma_cross_zero(v.sz(), v.sx(), k);
    lemma_cross_zero(v.sx(), v.sy(), k);
    lemma_cross_zero(v.sy(), v.sy(), k);
    lemma_cross_zero(v.sz(), v.sy(), k);
    lemma_cross_zero(v.sx(), v.sz(), k);
    lemma_cross_zero(v.sy(), v.sz(), k);
    lemma_cross_zero(v.sz(), v.sz(), k);
    if v.sx() != 0 {
        assert(w.sx() != 0) by (nonlinear_arith)
            requires w.sx() == v.sx() * k, v.sx() != 0, k != 0;
        assert(abs_int(w.sx()) >= 1);
        assert(cross_small(v.sx(), w.sx(), v.sx(), w.sx()));
        assert(cross_small(v.sy(), w.sy(), v.sx(), w.sx()));
        assert(cross_small(v.sz(), w.sz(), v.sx(), w.sx()));
    } else if v.sy() != 0 {
        assert(w.sx() == 0) by (nonlinear_arith)
            requires w.sx() == v.sx() * k, v.sx() == 0;
        assert(w.sy() != 0) by (nonlinear_arith)
            requires w.sy() == v.sy() * k, v.sy() != 0, k != 0;
        assert(cross_small(v.sx(), w.sx(), v.sy(), w.sy()));
        assert(cross_small(v.sy(), w.sy(), v.sy(), w.sy()));
        assert(cross_small(v.sz(), w.sz(), v.sy(), w.sy()));
    } else {
        assert(w.sx() == 0 && w.sy() == 0) by (nonlinear_arith)
            requires w.sx() == v.sx() * k, w.sy() == v.sy() * k, v.sx() == 0, v.sy() == 0;
        assert(w.sz() != 0) by (nonlinear_arith)
            requires w.sz() == v.sz() * k, v.sz() != 0, k != 0;
        assert(cross_small(v.sx(), w.sx(), v.sz(), w.sz()));
        assert(cross_small(v.sy(), w.sy(), v.sz(), w.sz()));
        assert(cross_small(v.sz(), w.sz(), v.sz(), w.sz()));
    }
}

/// Cross terms of proportional pairs vanish.
proof fn lemma_cross_zero(a: int, b: int, k: int)
    ensures
        a * (b * k) - b * (a * k) == 0,
        abs_int(a * (b * k) - b * (a * k)) * 100_000_000 == 0,
{
    assert(a * (b * k) - b * (a * k) == 0) by (nonlinear_arith);
}

} // verus!
