use vstd::prelude::*;

use crate::math::Mat3x3;
use crate::math::SCALE;
use crate::math::V3;
use crate::math::div_trunc;
use crate::math::spec_independent;
use crate::resolve::AdvancedFace;
use crate::resolve::Axis;
use crate::resolve::v3_triple;
use crate::resolve::FaceElement;

verus! {

broadcast use vstd::std_specs::vec::group_vec_axioms;

// ---------------------------------------------------------------------------
// The geometric analyzer: classifies the plane normals into direction
// families, aligns the solid so that the extrusion direction becomes the
// machine feed axis, measures the stock, and reduces each cylindrical
// face to a drill descriptor.  The working scale is micro-units
// throughout; angles are counted in micro-degrees.
//
// The family classification assumes a rectangular prism: exactly one
// family of two opposing end caps and two families of side faces.  For
// any other topology the frame comes out wrong but nothing fails; that
// gap is deliberate.
// ---------------------------------------------------------------------------

/// One drilled hole: depth along the feed axis, approach angle around it
/// (micro-degrees), and signed lateral offset.
#[derive(PartialEq, Debug, Clone, Copy)]
pub struct Drill {
    pub d: i64,
    pub theta: i64,
    pub slide: i64,
}

/// The analysis result: the drills, the stock center (feed-axis
/// component fixed at zero) and the stock extents.
#[derive(PartialEq, Debug)]
pub struct Proc {
    pub drills: Vec<Drill>,
    pub center: V3,
    pub size: V3,
}

// ---------------------------------------------------------------------------
// Integer square root.
// ---------------------------------------------------------------------------

/// The integer square root, defined by counting up.
pub open spec fn sp_isqrt(n: nat) -> nat
    decreases n,
{
    if n == 0 {
        0
    } else {
        let r = sp_isqrt((n - 1) as nat);
        if (r + 1) * (r + 1) <= n {
            r + 1
        } else {
            r
        }
    }
}

pub proof fn lemma_sp_isqrt(n: nat)
    ensures
        sp_isqrt(n) * sp_isqrt(n) <= n,
        n < (sp_isqrt(n) + 1) * (sp_isqrt(n) + 1),
    decreases n,
{
    if n == 0 {
        assert(sp_isqrt(n) == 0);
        assert((sp_isqrt(n) + 1) * (sp_isqrt(n) + 1) == 1) by (nonlinear_arith)
            requires sp_isqrt(n) == 0;
        assert(sp_isqrt(n) * sp_isqrt(n) == 0) by (nonlinear_arith)
            requires sp_isqrt(n) == 0;
    }
    if n > 0 {
        lemma_sp_isqrt((n - 1) as nat);
        let r = sp_isqrt((n - 1) as nat);
        assert(sp_isqrt(n) == if (r + 1) * (r + 1) <= n {
            r + 1
        } else {
            r
        });
        if (r + 1) * (r + 1) <= n {
            assert(n == (r + 1) * (r + 1));
            assert(n < (r + 2) * (r + 2)) by (nonlinear_arith)
                requires n == (r + 1) * (r + 1);
            assert(sp_isqrt(n) * sp_isqrt(n) <= n);
            assert(n < (sp_isqrt(n) + 1) * (sp_isqrt(n) + 1));
        } else {
            assert(sp_isqrt(n) * sp_isqrt(n) <= n);
            assert(n < (sp_isqrt(n) + 1) * (sp_isqrt(n) + 1));
        }
    }
}

pub proof fn lemma_isqrt_unique(n: nat, r: nat)
    requires
        r * r <= n,
        n < (r + 1) * (r + 1),
    ensures
        r == sp_isqrt(n),
{
    lemma_sp_isqrt(n);
    let s = sp_isqrt(n);
    if r < s {
        assert((r + 1) * (r + 1) <= s * s) by (nonlinear_arith)
            requires r + 1 <= s;
    }
    if s < r {
        assert((s + 1) * (s + 1) <= r * r) by (nonlinear_arith)
            requires s + 1 <= r;
    }
}

/// Binary search for the integer square root.
pub fn isqrt(n: u128) -> (r: u64)
    requires
        n < 0x1000_0000_0000_0000_0000_0000,
    ensures
        r as nat == sp_isqrt(n as nat),
        (r as nat) * (r as nat) <= n as nat,
{
    let mut lo: u128 = 0;
    let mut hi: u128 = 0x4000_0000_0000;
    proof {
        assert((0x4000_0000_0000 as nat) * (0x4000_0000_0000 as nat)
            == 0x1000_0000_0000_0000_0000_0000) by (nonlinear_arith);
    }
    while lo + 1 < hi
        invariant
            0 <= lo < hi <= 0x4000_0000_0000,
            n < 0x1000_0000_0000_0000_0000_0000,
            (lo as nat) * (lo as nat) <= n as nat,
            (hi as nat) * (hi as nat) > n as nat,
        decreases hi - lo,
    {
        let mid = lo + (hi - lo) / 2;
        proof {
            assert((mid as nat) * (mid as nat) <= (0x4000_0000_0000 as nat) * (
            0x4000_0000_0000 as nat)) by (nonlinear_arith)
                requires mid <= 0x4000_0000_0000;
        }
        if mid * mid <= n {
            lo = mid;
        } else {
            hi = mid;
        }
    }
    proof {
        lemma_isqrt_unique(n as nat, lo as nat);
    }
    lo as u64
}

// ---------------------------------------------------------------------------
// Normalization.
// ---------------------------------------------------------------------------

/// The unit vector along `v`, in micro-units, truncated; the zero vector
/// stays zero.
pub open spec fn sp_normalize(v: V3) -> (int, int, int) {
    let n2 = (v.sx() * v.sx() + v.sy() * v.sy() + v.sz() * v.sz()) as nat;
    let r = sp_isqrt(n2);
    if r == 0 {
        (0, 0, 0)
    } else {
        (
            div_trunc(v.sx() * (SCALE as int), r as int),
            div_trunc(v.sy() * (SCALE as int), r as int),
            div_trunc(v.sz() * (SCALE as int), r as int),
        )
    }
}

/// Each component of a normalized vector is at most one unit.
pub proof fn lemma_normalize_bounds(v: V3)
    ensures
        -SCALE <= sp_normalize(v).0 <= SCALE,
        -SCALE <= sp_normalize(v).1 <= SCALE,
        -SCALE <= sp_normalize(v).2 <= SCALE,
{
    let n2 = (v.sx() * v.sx() + v.sy() * v.sy() + v.sz() * v.sz()) as nat;
    assert(v.sx() * v.sx() >= 0 && v.sy() * v.sy() >= 0 && v.sz() * v.sz() >= 0)
        by (nonlinear_arith);
    let r = sp_isqrt(n2);
    if r != 0 {
        lemma_sp_isqrt(n2);
        lemma_comp_le_root(v.sx(), v.sy(), v.sz(), n2, r);
        lemma_comp_le_root(v.sy(), v.sx(), v.sz(), n2, r);
        lemma_comp_le_root(v.sz(), v.sy(), v.sx(), n2, r);
        lemma_scaled_div_unit(v.sx(), r);
        lemma_scaled_div_unit(v.sy(), r);
        lemma_scaled_div_unit(v.sz(), r);
    }
}

/// A component whose square is within `n2` is at most the root.
proof fn lemma_comp_le_root(a: int, b: int, c: int, n2: nat, r: nat)
    requires
        n2 == a * a + b * b + c * c,
        r == sp_isqrt(n2),
    ensures
        -(r as int) <= a <= r as int,
{
    lemma_sp_isqrt(n2);
    assert(a * a <= n2) by (nonlinear_arith)
        requires n2 == a * a + b * b + c * c;
    if a > r as int {
        assert(a * a >= (r + 1) * (r + 1)) by (nonlinear_arith)
            requires a >= r + 1;
    }
    if a < -(r as int) {
        assert(a * a >= (r + 1) * (r + 1)) by (nonlinear_arith)
            requires -a >= r + 1;
    }
}

proof fn lemma_scaled_div_unit(a: int, r: nat)
    requires
        r >= 1,
        -(r as int) <= a <= r as int,
    ensures
        -SCALE <= div_trunc(a * (SCALE as int), r as int) <= SCALE,
{
    if a >= 0 {
        assert(a * (SCALE as int) <= (r as int) * (SCALE as int)) by (nonlinear_arith)
            requires a <= r as int, SCALE as int >= 0;
        vstd::arithmetic::div_mod::lemma_div_is_ordered(
            a * (SCALE as int),
            (r as int) * (SCALE as int),
            r as int,
        );
        assert((r as int) * (SCALE as int) / (r as int) == SCALE as int) by (nonlinear_arith)
            requires r >= 1;
        assert(a * (SCALE as int) / (r as int) >= 0) by (nonlinear_arith)
            requires a >= 0, r >= 1;
    } else {
        assert((-a) * (SCALE as int) <= (r as int) * (SCALE as int)) by (nonlinear_arith)
            requires -a <= r as int, SCALE as int >= 0;
        vstd::arithmetic::div_mod::lemma_div_is_ordered(
            (-a) * (SCALE as int),
            (r as int) * (SCALE as int),
            r as int,
        );
        assert((r as int) * (SCALE as int) / (r as int) == SCALE as int) by (nonlinear_arith)
            requires r >= 1;
        assert((-a) * (SCALE as int) / (r as int) >= 0) by (nonlinear_arith)
            requires -a >= 0, r >= 1;
        assert(-(a * (SCALE as int)) == (-a) * (SCALE as int)) by (nonlinear_arith);
    }
}

/// Normalizes a vector to unit length in micro-units.
pub fn normalize(v: &V3) -> (r: V3)
    requires
        v.bounded(),
    ensures
        v3_triple(r) == sp_normalize(*v),
        -SCALE <= r.sx() <= SCALE,
        -SCALE <= r.sy() <= SCALE,
        -SCALE <= r.sz() <= SCALE,
{
    proof {
        crate::math::lemma_mul_limits(v.sx(), v.sx());
        crate::math::lemma_mul_limits(v.sy(), v.sy());
        crate::math::lemma_mul_limits(v.sz(), v.sz());
        assert(v.sx() * v.sx() >= 0 && v.sy() * v.sy() >= 0 && v.sz() * v.sz() >= 0)
            by (nonlinear_arith);
    }
    let n2: i128 = (v.0[0] as i128) * (v.0[0] as i128) + (v.0[1] as i128) * (v.0[1] as i128) + (
    v.0[2] as i128) * (v.0[2] as i128);
    let root = isqrt(n2 as u128);
    proof {
        lemma_normalize_bounds(*v);
    }
    if root == 0 {
        V3([0, 0, 0])
    } else {
        let r128: i128 = root as i128;
        let nx: i128 = (v.0[0] as i128) * (SCALE as i128);
        let ny: i128 = (v.0[1] as i128) * (SCALE as i128);
        let nz: i128 = (v.0[2] as i128) * (SCALE as i128);
        V3([div_signed(nx, r128) as i64, div_signed(ny, r128) as i64, div_signed(nz, r128) as i64])
    }
}

/// Truncating signed division on the double-width word.
fn div_signed(a: i128, b: i128) -> (r: i128)
    requires
        b > 0,
        a > i128::MIN,
    ensures
        r as int == div_trunc(a as int, b as int),
{
    if a < 0 {
        let q = ((-a) as u128) / (b as u128);
        proof {
            assert(q as int <= (-a) as int) by (nonlinear_arith)
                requires q as int == ((-a) as int) / (b as int), b as int >= 1, (-a) as int >= 0;
        }
        -(q as i128)
    } else {
        let q = (a as u128) / (b as u128);
        proof {
            assert(q as int <= a as int) by (nonlinear_arith)
                requires q as int == (a as int) / (b as int), b as int >= 1, a as int >= 0;
        }
        q as i128
    }
}

} // verus!

verus! {

// ---------------------------------------------------------------------------
// The approach angle, in micro-degrees.
// ---------------------------------------------------------------------------

/// First-octant arctangent of the ratio `t` (micro-scaled, `0..=SCALE`),
/// in micro-degrees: `45 t` plus a quadratic correction.  The result is
/// exact at both octant ends and within a few hundredths of a degree
/// between them.
pub open spec fn sp_atan_oct(t: int) -> int {
    45 * t + div_trunc(15_643_500 * t * (1_000_000 - t), 1_000_000_000_000)
}

fn atan_oct(t: i64) -> (r: i64)
    requires
        0 <= t <= 1_000_000,
    ensures
        r as int == sp_atan_oct(t as int),
        0 <= r <= 49_000_000,
        t == 0 ==> r == 0,
        t == 1_000_000 ==> r == 45_000_000,
{
    let t1: i128 = t as i128;
    proof {
        assert(0 <= 15_643_500 * (t as int) && 15_643_500 * (t as int)
            <= 15_643_500_000_000) by (nonlinear_arith)
            requires 0 <= t as int <= 1_000_000;
        assert(0 <= 15_643_500 * (t as int) * (1_000_000 - t as int) && 15_643_500 * (t as int)
            * (1_000_000 - t as int) <= 4_000_000_000_000_000_000) by (nonlinear_arith)
            requires 0 <= t as int <= 1_000_000;
    }
    let corr: i128 = 15_643_500i128 * t1 * (1_000_000i128 - t1);
    proof {
        vstd::arithmetic::div_mod::lemma_div_is_ordered(
            corr as int,
            4_000_000_000_000_000_000,
            1_000_000_000_000,
        );
        assert(corr as int / 1_000_000_000_000 >= 0) by (nonlinear_arith)
            requires corr as int >= 0;
        assert(div_trunc(corr as int, 1_000_000_000_000) == corr as int / 1_000_000_000_000);
        if t == 0 {
            assert(corr as int == 0) by (nonlinear_arith)
                requires corr as int == 15_643_500 * 0 * (1_000_000 - 0);
        }
        if t == 1_000_000 {
            assert(corr as int == 0) by (nonlinear_arith)
                requires corr as int == 15_643_500 * 1_000_000 * (1_000_000 - 1_000_000);
        }
    }
    let c: i128 = corr / 1_000_000_000_000i128;
    let r: i128 = 45i128 * t1 + c;
    r as i64
}

/// The plane angle of `(x, y)` in micro-degrees, by octant reduction to
/// `sp_atan_oct`: zero along the positive first axis, a quarter turn at
/// the positive second axis, a half turn along the negative first axis.
pub open spec fn sp_atan2(y: int, x: int) -> int {
    let ax = if x >= 0 {
        x
    } else {
        -x
    };
    let ay = if y >= 0 {
        y
    } else {
        -y
    };
    let base = if ax == 0 && ay == 0 {
        0
    } else if ay <= ax {
        sp_atan_oct(div_trunc(ay * 1_000_000, ax))
    } else {
        90_000_000 - sp_atan_oct(div_trunc(ax * 1_000_000, ay))
    };
    if x >= 0 && y >= 0 {
        base
    } else if x < 0 && y >= 0 {
        180_000_000 - base
    } else if x < 0 && y < 0 {
        -(180_000_000 - base)
    } else {
        -base
    }
}

/// Computes the approach angle.  The octant boundaries are exact; the
/// result always lies within a half turn of zero.
pub fn atan2_udeg(y: i64, x: i64) -> (r: i64)
    requires
        -crate::math::LIMIT <= x <= crate::math::LIMIT,
        -crate::math::LIMIT <= y <= crate::math::LIMIT,
    ensures
        r as int == sp_atan2(y as int, x as int),
        -180_000_000 <= r <= 180_000_000,
        y == 0 && x > 0 ==> r == 0,
        y == 0 && x < 0 ==> r == 180_000_000,
        x == 0 && y > 0 ==> r == 90_000_000,
        x == 0 && y < 0 ==> r == -90_000_000,
        y > 0 ==> r >= 0,
        y < 0 ==> r <= 0,
{
    let ax: i64 = if x >= 0 {
        x
    } else {
        -x
    };
    let ay: i64 = if y >= 0 {
        y
    } else {
        -y
    };
    let base: i64 = if ax == 0 && ay == 0 {
        0
    } else if ay <= ax {
        let t128: i128 = (ay as i128) * 1_000_000i128 / (ax as i128);
        proof {
            lemma_ratio_unit(ay as int, ax as int);
        }
        atan_oct(t128 as i64)
    } else {
        let t128: i128 = (ax as i128) * 1_000_000i128 / (ay as i128);
        proof {
            lemma_ratio_unit(ax as int, ay as int);
        }
        90_000_000 - atan_oct(t128 as i64)
    };
    if x >= 0 && y >= 0 {
        base
    } else if x < 0 && y >= 0 {
        180_000_000 - base
    } else if x < 0 && y < 0 {
        -(180_000_000 - base)
    } else {
        -base
    }
}

/// The micro-scaled ratio of `0 <= a <= b` lies in the unit range.
proof fn lemma_ratio_unit(a: int, b: int)
    requires
        0 <= a <= b,
        b >= 1,
    ensures
        0 <= a * 1_000_000 / b <= 1_000_000,
        div_trunc(a * 1_000_000, b) == a * 1_000_000 / b,
        a == 0 ==> a * 1_000_000 / b == 0,
        a == b ==> a * 1_000_000 / b == 1_000_000,
{
    assert(a * 1_000_000 >= 0) by (nonlinear_arith)
        requires a >= 0;
    assert(a * 1_000_000 <= b * 1_000_000) by (nonlinear_arith)
        requires a <= b;
    vstd::arithmetic::div_mod::lemma_div_is_ordered(a * 1_000_000, b * 1_000_000, b);
    assert(b * 1_000_000 / b == 1_000_000) by (nonlinear_arith)
        requires b >= 1;
    assert(a * 1_000_000 / b >= 0) by (nonlinear_arith)
        requires a >= 0, b >= 1;
    if a == 0 {
        assert(0 * 1_000_000 == 0) by (nonlinear_arith);
    }
}

} // verus!

verus! {

// ---------------------------------------------------------------------------
// Grouping directions with a tolerant key: a map whose keys are compared
// by the independence predicate, not exact equality.
// ---------------------------------------------------------------------------

/// The first entry whose key is not independent of `k`.
pub open spec fn vm_find<V>(s: Seq<(V3, V)>, k: V3) -> Option<int>
    decreases s.len(),
{
    if s.len() == 0 {
        Option::None
    } else if !spec_independent(s[0].0, k) {
        Option::Some(0)
    } else {
        match vm_find(s.skip(1), k) {
            Option::Some(i) => Option::Some(i + 1),
            Option::None => Option::None,
        }
    }
}

pub open spec fn vm_keys_bounded<V>(s: Seq<(V3, V)>) -> bool {
    forall|i: int| 0 <= i < s.len() ==> (#[trigger] s[i]).0.bounded()
}

pub proof fn lemma_vm_find_range<V>(s: Seq<(V3, V)>, k: V3)
    ensures
        match vm_find(s, k) {
            Option::Some(i) => 0 <= i < s.len(),
            Option::None => true,
        },
    decreases s.len(),
{
    if s.len() > 0 && spec_independent(s[0].0, k) {
        lemma_vm_find_range(s.skip(1), k);
    }
}

/// A list of entries looked up by direction family rather than by exact
/// key: inserting under a key that is dependent on a stored key replaces
/// that entry.
pub struct VecMap<V> {
    pub inner: Vec<(V3, V)>,
}

impl<V> VecMap<V> {
    pub fn new() -> (r: Self)
        ensures
            r.inner@ == Seq::<(V3, V)>::empty(),
    {
        VecMap { inner: Vec::new() }
    }

    /// Replaces the first entry of the same family, or appends.
    pub fn insert(&mut self, k: V3, v: V)
        requires
            k.bounded(),
            vm_keys_bounded(old(self).inner@),
        ensures
            final(self).inner@ == (match vm_find(old(self).inner@, k) {
                Option::Some(i) => old(self).inner@.update(i, (k, v)),
                Option::None => old(self).inner@.push((k, v)),
            }),
            vm_keys_bounded(final(self).inner@),
    {
        let ghost s0 = self.inner@;
        proof {
            assert(s0.skip(0) =~= s0);
            lemma_vm_find_range(s0, k);
        }
        let n = self.inner.len();
        let mut i: usize = 0;
        #[verifier::loop_isolation(false)]
        while i < n
            invariant
                0 <= i <= n,
                self.inner@ == s0,
                match vm_find(s0, k) {
                    Option::Some(t) => i <= t,
                    Option::None => true,
                },
                vm_find(s0, k) == match vm_find(s0.skip(i as int), k) {
                    Option::Some(t) => Option::Some(t + i),
                    Option::None => Option::None,
                },
            decreases n - i,
        {
            proof {
                assert(s0.skip(i as int)[0] == s0[i as int]);
                assert(s0.skip(i as int).skip(1) =~= s0.skip(i as int + 1));
                lemma_vm_find_range(s0.skip(i as int + 1), k);
            }
            let dep = {
                let pair = &self.inner[i];
                !pair.0.are_independent(&k)
            };
            if dep {
                self.inner.set(i, (k, v));
                proof {
                    assert(vm_find(s0, k) == Option::Some(i as int));
                    assert(self.inner@ =~= s0.update(i as int, (k, v)));
                }
                return ;
            }
            i = i + 1;
        }
        proof {
            assert(s0.skip(n as int).len() == 0);
            assert(vm_find(s0, k) is None);
        }
        self.inner.push((k, v));
    }

    /// The value of the first entry of the same family.
    pub fn get(&self, k: &V3) -> (r: Option<&V>)
        requires
            k.bounded(),
            vm_keys_bounded(self.inner@),
        ensures
            match r {
                Some(v) => (vm_find(self.inner@, *k) matches Option::Some(i) && *v
                    == self.inner@[i].1),
                None => vm_find(self.inner@, *k) is None,
            },
    {
        let ghost s0 = self.inner@;
        proof {
            assert(s0.skip(0) =~= s0);
            lemma_vm_find_range(s0, *k);
        }
        let n = self.inner.len();
        let mut i: usize = 0;
        #[verifier::loop_isolation(false)]
        while i < n
            invariant
                0 <= i <= n,
                match vm_find(s0, *k) {
                    Option::Some(t) => i <= t,
                    Option::None => true,
                },
                vm_find(s0, *k) == match vm_find(s0.skip(i as int), *k) {
                    Option::Some(t) => Option::Some(t + i),
                    Option::None => Option::None,
                },
            decreases n - i,
        {
            proof {
                assert(s0.skip(i as int)[0] == s0[i as int]);
                assert(s0.skip(i as int).skip(1) =~= s0.skip(i as int + 1));
                lemma_vm_find_range(s0.skip(i as int + 1), *k);
            }
            let pair = &self.inner[i];
            if !pair.0.are_independent(k) {
                proof {
                    assert(vm_find(s0, *k) == Option::Some(i as int));
                }
                return Some(&self.inner[i].1);
            }
            i = i + 1;
        }
        proof {
            assert(s0.skip(n as int).len() == 0);
        }
        None
    }
}

} // verus!

verus! {

// ---------------------------------------------------------------------------
// Direction families and the canonical axes.
// ---------------------------------------------------------------------------

pub open spec fn sp_dirs(ps: Seq<Axis>) -> Seq<V3> {
    Seq::new(ps.len(), |i: int| ps[i].direction)
}

/// One direction added to the family counts: a direction of an existing
/// family replaces that family's key and raises its count, a new
/// direction opens a family of one.
pub open spec fn sp_count_step(m: Seq<(V3, u64)>, d: V3) -> Seq<(V3, u64)> {
    match vm_find(m, d) {
        Option::Some(i) => m.update(i, (d, (m[i].1 + 1) as u64)),
        Option::None => m.push((d, 1u64)),
    }
}

/// The family counts after all directions, in order.
pub open spec fn sp_dir_counts(ds: Seq<V3>) -> Seq<(V3, u64)>
    decreases ds.len(),
{
    if ds.len() == 0 {
        Seq::empty()
    } else {
        sp_count_step(sp_dir_counts(ds.drop_last()), ds.last())
    }
}

pub proof fn lemma_dir_counts_wf(ds: Seq<V3>)
    requires
        forall|i: int| 0 <= i < ds.len() ==> (#[trigger] ds[i]).bounded(),
    ensures
        sp_dir_counts(ds).len() <= ds.len(),
        vm_keys_bounded(sp_dir_counts(ds)),
        forall|j: int|
            0 <= j < sp_dir_counts(ds).len() ==> (#[trigger] sp_dir_counts(ds)[j]).1 <= ds.len(),
    decreases ds.len(),
{
    if ds.len() > 0 {
        assert(forall|i: int|
            0 <= i < ds.drop_last().len() ==> (#[trigger] ds.drop_last()[i]).bounded());
        lemma_dir_counts_wf(ds.drop_last());
        let m = sp_dir_counts(ds.drop_last());
        let d = ds.last();
        lemma_vm_find_range(m, d);
        match vm_find(m, d) {
            Option::Some(i) => {},
            Option::None => {},
        }
    }
}

/// The selection of the canonical axes from the families, in map order:
/// a family of exactly two members sets the feed axis, the first other
/// family sets the first in-plane axis, every later one the second.
pub open spec fn sp_pick(m: Seq<(V3, u64)>) -> ((int, int, int), (int, int, int), (int, int, int))
    decreases m.len(),
{
    if m.len() == 0 {
        ((0, 0, 0), (0, 0, 0), (0, 0, 0))
    } else {
        let prev = sp_pick(m.drop_last());
        let x = prev.0;
        let y = prev.1;
        let z = prev.2;
        let v = m.last().0;
        let c = m.last().1;
        if c == 2 {
            (x, y, sp_normalize(v))
        } else if x == (0int, 0int, 0int) {
            (sp_normalize(v), y, z)
        } else {
            (x, sp_normalize(v), z)
        }
    }
}

pub proof fn lemma_pick_bounds(m: Seq<(V3, u64)>)
    ensures
        ({
            let p = sp_pick(m);
            &&& -SCALE <= p.0.0 <= SCALE && -SCALE <= p.0.1 <= SCALE && -SCALE <= p.0.2 <= SCALE
            &&& -SCALE <= p.1.0 <= SCALE && -SCALE <= p.1.1 <= SCALE && -SCALE <= p.1.2 <= SCALE
            &&& -SCALE <= p.2.0 <= SCALE && -SCALE <= p.2.1 <= SCALE && -SCALE <= p.2.2 <= SCALE
        }),
    decreases m.len(),
{
    if m.len() > 0 {
        lemma_pick_bounds(m.drop_last());
        lemma_normalize_bounds(m.last().0);
    }
}

/// Classifies the plane normals into families and derives the canonical
/// axes: the family of two opposing faces gives the feed axis, the other
/// families the in-plane axes, each normalized to unit length.
pub fn get_axes(axes: &Vec<Axis>) -> (r: (V3, V3, V3))
    requires
        forall|i: int| 0 <= i < axes@.len() ==> (#[trigger] axes@[i]).direction.bounded(),
    ensures
        (v3_triple(r.0), v3_triple(r.1), v3_triple(r.2)) == sp_pick(
            sp_dir_counts(sp_dirs(axes@)),
        ),
        -SCALE <= r.0.sx() <= SCALE && -SCALE <= r.0.sy() <= SCALE && -SCALE <= r.0.sz() <= SCALE,
        -SCALE <= r.1.sx() <= SCALE && -SCALE <= r.1.sy() <= SCALE && -SCALE <= r.1.sz() <= SCALE,
        -SCALE <= r.2.sx() <= SCALE && -SCALE <= r.2.sy() <= SCALE && -SCALE <= r.2.sz() <= SCALE,
{
    let ghost dirs = sp_dirs(axes@);
    proof {
        assert(forall|i: int| 0 <= i < dirs.len() ==> (#[trigger] dirs[i]).bounded());
    }
    let mut map: VecMap<u64> = VecMap::new();
    let n = axes.len();
    let mut k: usize = 0;
    proof {
        assert(dirs.take(0) =~= Seq::<V3>::empty());
    }
    #[verifier::loop_isolation(false)]
    while k < n
        invariant
            0 <= k <= n,
            map.inner@ == sp_dir_counts(dirs.take(k as int)),
            vm_keys_bounded(map.inner@),
        decreases n - k,
    {
        let d = axes[k].direction;
        proof {
            assert(dirs.take(k as int + 1).drop_last() =~= dirs.take(k as int));
            assert(dirs.take(k as int + 1).last() == dirs[k as int]);
            assert(forall|i: int|
                0 <= i < dirs.take(k as int).len() ==> (#[trigger] dirs.take(k as int)[i])
                    .bounded());
            lemma_dir_counts_wf(dirs.take(k as int));
        }
        match map.get(&d) {
            Some(cnt) => {
                let c = *cnt;
                proof {
                    lemma_vm_find_range(map.inner@, d);
                    let iw = vm_find(map.inner@, d)->0;
                    assert(sp_dir_counts(dirs.take(k as int))[iw] == map.inner@[iw]);
                    assert(c <= dirs.take(k as int).len());
                }
                map.insert(d, c + 1);
            },
            None => {
                map.insert(d, 1);
            },
        }
        k = k + 1;
    }
    proof {
        assert(dirs.take(n as int) =~= dirs);
    }
    let ghost fam = sp_dir_counts(dirs);
    let mut x_ax = V3([0, 0, 0]);
    let mut y_ax = V3([0, 0, 0]);
    let mut z_ax = V3([0, 0, 0]);
    let m = map.inner.len();
    let mut t: usize = 0;
    proof {
        assert(fam.take(0) =~= Seq::<(V3, u64)>::empty());
        lemma_dir_counts_wf(dirs);
    }
    #[verifier::loop_isolation(false)]
    while t < m
        invariant
            0 <= t <= m,
            (v3_triple(x_ax), v3_triple(y_ax), v3_triple(z_ax)) == sp_pick(fam.take(t as int)),
            x_ax.bounded(),
            y_ax.bounded(),
            z_ax.bounded(),
        decreases m - t,
    {
        proof {
            assert(fam.take(t as int + 1).drop_last() =~= fam.take(t as int));
            assert(fam.take(t as int + 1).last() == fam[t as int]);
            lemma_normalize_bounds(fam[t as int].0);
        }
        let v = map.inner[t].0;
        let cnt = map.inner[t].1;
        if cnt == 2 {
            z_ax = normalize(&v);
        } else if x_ax.0[0] == 0 && x_ax.0[1] == 0 && x_ax.0[2] == 0 {
            x_ax = normalize(&v);
        } else {
            y_ax = normalize(&v);
        }
        t = t + 1;
    }
    proof {
        assert(fam.take(m as int) =~= fam);
        lemma_pick_bounds(fam);
    }
    (x_ax, y_ax, z_ax)
}

} // verus!

verus! {

// ---------------------------------------------------------------------------
// Alignment: a pure rotation taking the detected feed direction onto the
// machine feed axis.
// ---------------------------------------------------------------------------

pub open spec fn sp_rho(v: V3) -> nat {
    sp_isqrt((v.sx() * v.sx() + v.sy() * v.sy()) as nat)
}

pub open spec fn sp_rr(v: V3) -> nat {
    sp_isqrt((v.sx() * v.sx() + v.sy() * v.sy() + v.sz() * v.sz()) as nat)
}

/// Cosine of the rotation about the second axis (micro-scaled).
pub open spec fn sp_cy(v: V3) -> int {
    if sp_rr(v) == 0 {
        SCALE as int
    } else {
        div_trunc(v.sz() * (SCALE as int), sp_rr(v) as int)
    }
}

/// Sine of the rotation about the second axis.
pub open spec fn sp_sy(v: V3) -> int {
    if sp_rr(v) == 0 {
        0
    } else {
        -div_trunc(sp_rho(v) as int * (SCALE as int), sp_rr(v) as int)
    }
}

/// Cosine of the rotation about the feed axis.
pub open spec fn sp_cz(v: V3) -> int {
    if sp_rho(v) == 0 {
        SCALE as int
    } else {
        div_trunc(v.sx() * (SCALE as int), sp_rho(v) as int)
    }
}

/// Sine of the rotation about the feed axis.
pub open spec fn sp_sz(v: V3) -> int {
    if sp_rho(v) == 0 {
        0
    } else {
        -div_trunc(v.sy() * (SCALE as int), sp_rho(v) as int)
    }
}

/// `m` is the alignment rotation for the direction `v`: the product of
/// the two plane rotations, every entry scaled to micro-units.
pub open spec fn mat_is_align(m: Mat3x3, v: V3) -> bool {
    let s = SCALE as int;
    let cy = sp_cy(v);
    let sy = sp_sy(v);
    let cz = sp_cz(v);
    let sz = sp_sz(v);
    &&& m.entry(0, 0) == div_trunc(cy * cz, s)
    &&& m.entry(0, 1) == div_trunc(cy * (-sz), s)
    &&& m.entry(0, 2) == div_trunc(sy * s, s)
    &&& m.entry(1, 0) == div_trunc(s * sz, s)
    &&& m.entry(1, 1) == div_trunc(s * cz, s)
    &&& m.entry(1, 2) == 0
    &&& m.entry(2, 0) == div_trunc(-sy * cz, s)
    &&& m.entry(2, 1) == div_trunc(sy * sz, s)
    &&& m.entry(2, 2) == div_trunc(cy * s, s)
    &&& m.bounded()
    &&& mat_entries_unit(m)
}

/// Every entry of the rotation lies within one unit.
pub open spec fn mat_entries_unit(m: Mat3x3) -> bool {
    forall|i: int, j: int| 0 <= i < 3 && 0 <= j < 3 ==> -SCALE <= #[trigger] m.entry(i, j) <= SCALE
}

/// Builds the alignment rotation for a feed direction.
#[verifier::rlimit(100)]
pub fn get_align_mat(y_axis: &V3) -> (r: Mat3x3)
    requires
        y_axis.bounded(),
    ensures
        mat_is_align(r, *y_axis),
{
    let v = y_axis;
    proof {
        crate::math::lemma_mul_limits(v.sx(), v.sx());
        crate::math::lemma_mul_limits(v.sy(), v.sy());
        crate::math::lemma_mul_limits(v.sz(), v.sz());
        assert(v.sx() * v.sx() >= 0 && v.sy() * v.sy() >= 0 && v.sz() * v.sz() >= 0)
            by (nonlinear_arith);
    }
    let n2xy: i128 = (v.0[0] as i128) * (v.0[0] as i128) + (v.0[1] as i128) * (v.0[1] as i128);
    let n2: i128 = n2xy + (v.0[2] as i128) * (v.0[2] as i128);
    let rho = isqrt(n2xy as u128);
    let rr = isqrt(n2 as u128);
    proof {
        lemma_sp_isqrt(n2xy as nat);
        lemma_sp_isqrt(n2 as nat);
        lemma_comp_le_root(v.sz(), v.sx(), v.sy(), n2 as nat, rr as nat);
        lemma_comp_le_root(v.sx(), v.sy(), 0, n2xy as nat, rho as nat);
        lemma_comp_le_root(v.sy(), v.sx(), 0, n2xy as nat, rho as nat);
        if rho as nat > rr as nat {
            assert((rho as nat) * (rho as nat) >= (rr as nat + 1) * (rr as nat + 1))
                by (nonlinear_arith)
                requires rho as nat >= rr as nat + 1;
        }
        assert(rho as nat <= rr as nat);
    }
    let s128: i128 = SCALE as i128;
    let cy: i64;
    let sy: i64;
    if rr == 0 {
        cy = SCALE;
        sy = 0;
    } else {
        proof {
            lemma_scaled_div_unit(v.sz(), rr as nat);
            lemma_scaled_div_unit(rho as int, rr as nat);
        }
        cy = div_signed((v.0[2] as i128) * s128, rr as i128) as i64;
        sy = -(div_signed((rho as i128) * s128, rr as i128) as i64);
    }
    let cz: i64;
    let sz: i64;
    if rho == 0 {
        cz = SCALE;
        sz = 0;
    } else {
        proof {
            lemma_scaled_div_unit(v.sx(), rho as nat);
            lemma_scaled_div_unit(v.sy(), rho as nat);
        }
        cz = div_signed((v.0[0] as i128) * s128, rho as i128) as i64;
        sz = -(div_signed((v.0[1] as i128) * s128, rho as i128) as i64);
    }
    proof {
        lemma_entry_products(cy as int, sy as int, cz as int, sz as int);
    }
    let e00 = div_signed((cy as i128) * (cz as i128), s128) as i64;
    let e01 = div_signed((cy as i128) * (-(sz as i128)), s128) as i64;
    let e02 = div_signed((sy as i128) * s128, s128) as i64;
    let e10 = div_signed(s128 * (sz as i128), s128) as i64;
    let e11 = div_signed(s128 * (cz as i128), s128) as i64;
    let e20 = div_signed((-(sy as i128)) * (cz as i128), s128) as i64;
    let e21 = div_signed((sy as i128) * (sz as i128), s128) as i64;
    let e22 = div_signed((cy as i128) * s128, s128) as i64;
    Mat3x3([V3([e00, e01, e02]), V3([e10, e11, 0]), V3([e20, e21, e22])])
}

/// Products of micro-scaled sines and cosines stay within one unit after
/// scaling back.
proof fn lemma_entry_products(cy: int, sy: int, cz: int, sz: int)
    requires
        -SCALE <= cy <= SCALE,
        -SCALE <= sy <= SCALE,
        -SCALE <= cz <= SCALE,
        -SCALE <= sz <= SCALE,
    ensures
        -(SCALE as int) * (SCALE as int) <= cy * cz <= (SCALE as int) * (SCALE as int),
        -(SCALE as int) * (SCALE as int) <= cy * (-sz) <= (SCALE as int) * (SCALE as int),
        -(SCALE as int) * (SCALE as int) <= sy * (SCALE as int) <= (SCALE as int) * (SCALE as int),
        -(SCALE as int) * (SCALE as int) <= (SCALE as int) * sz <= (SCALE as int) * (SCALE as int),
        -(SCALE as int) * (SCALE as int) <= (SCALE as int) * cz <= (SCALE as int) * (SCALE as int),
        -(SCALE as int) * (SCALE as int) <= (-sy) * cz <= (SCALE as int) * (SCALE as int),
        -(SCALE as int) * (SCALE as int) <= sy * sz <= (SCALE as int) * (SCALE as int),
        -(SCALE as int) * (SCALE as int) <= cy * (SCALE as int) <= (SCALE as int) * (SCALE as int),
        -SCALE <= div_trunc(cy * cz, SCALE as int) <= SCALE,
        -SCALE <= div_trunc(cy * (-sz), SCALE as int) <= SCALE,
        -SCALE <= div_trunc(sy * (SCALE as int), SCALE as int) <= SCALE,
        -SCALE <= div_trunc((SCALE as int) * sz, SCALE as int) <= SCALE,
        -SCALE <= div_trunc((SCALE as int) * cz, SCALE as int) <= SCALE,
        -SCALE <= div_trunc((-sy) * cz, SCALE as int) <= SCALE,
        -SCALE <= div_trunc(sy * sz, SCALE as int) <= SCALE,
        -SCALE <= div_trunc(cy * (SCALE as int), SCALE as int) <= SCALE,
{
    let s = SCALE as int;
    assert(-(s * s) <= cy * cz <= s * s && -(s * s) <= cy * (-sz) <= s * s && -(s * s) <= sy * s
        <= s * s && -(s * s) <= s * sz <= s * s && -(s * s) <= s * cz <= s * s && -(s * s) <= (-sy)
        * cz <= s * s && -(s * s) <= sy * sz <= s * s && -(s * s) <= cy * s <= s * s)
        by (nonlinear_arith)
        requires
            -SCALE <= cy <= SCALE,
            -SCALE <= sy <= SCALE,
            -SCALE <= cz <= SCALE,
            -SCALE <= sz <= SCALE,
            s == SCALE as int,
    ;
    assert(s * s / s == s) by (nonlinear_arith)
        requires s == SCALE as int;
    crate::math::lemma_div_trunc_bound(cy * cz, s, s * s);
    crate::math::lemma_div_trunc_bound(cy * (-sz), s, s * s);
    crate::math::lemma_div_trunc_bound(sy * s, s, s * s);
    crate::math::lemma_div_trunc_bound(s * sz, s, s * s);
    crate::math::lemma_div_trunc_bound(s * cz, s, s * s);
    crate::math::lemma_div_trunc_bound((-sy) * cz, s, s * s);
    crate::math::lemma_div_trunc_bound(sy * sz, s, s * s);
    crate::math::lemma_div_trunc_bound(cy * s, s, s * s);
}

/// Applies the alignment rotation to a frame, producing a new frame.
pub fn align(mat: &Mat3x3, ax: &Axis) -> (r: Axis)
    requires
        mat.bounded(),
        ax.p.bounded(),
        ax.direction.bounded(),
        ax.ref_direction.bounded(),
    ensures
        v3_triple(r.p) == (
            mat.spec_prod_vec_entry(ax.p, 0),
            mat.spec_prod_vec_entry(ax.p, 1),
            mat.spec_prod_vec_entry(ax.p, 2),
        ),
        v3_triple(r.direction) == (
            mat.spec_prod_vec_entry(ax.direction, 0),
            mat.spec_prod_vec_entry(ax.direction, 1),
            mat.spec_prod_vec_entry(ax.direction, 2),
        ),
        v3_triple(r.ref_direction) == (
            mat.spec_prod_vec_entry(ax.ref_direction, 0),
            mat.spec_prod_vec_entry(ax.ref_direction, 1),
            mat.spec_prod_vec_entry(ax.ref_direction, 2),
        ),
{
    Axis {
        p: mat.prod_vec(&ax.p),
        direction: mat.prod_vec(&ax.direction),
        ref_direction: mat.prod_vec(&ax.ref_direction),
    }
}

} // verus!

verus! {

// ---------------------------------------------------------------------------
// Stock measurement and drill reduction.
// ---------------------------------------------------------------------------

/// Rotating a vector whose components lie within `c` by a unit-entry
/// rotation keeps every component within `3 c`.
pub proof fn lemma_rot_bound(m: Mat3x3, v: V3, c: int)
    requires
        mat_entries_unit(m),
        0 <= c <= crate::math::LIMIT,
        -c <= v.sx() <= c,
        -c <= v.sy() <= c,
        -c <= v.sz() <= c,
    ensures
        -3 * c <= m.spec_prod_vec_entry(v, 0) <= 3 * c,
        -3 * c <= m.spec_prod_vec_entry(v, 1) <= 3 * c,
        -3 * c <= m.spec_prod_vec_entry(v, 2) <= 3 * c,
{
    let s = SCALE as int;
    assert forall|i: int| 0 <= i < 3 implies -3 * c <= #[trigger] m.spec_prod_vec_entry(v, i)
        <= 3 * c by {
        let sum = m.entry(i, 0) * v.sx() + m.entry(i, 1) * v.sy() + m.entry(i, 2) * v.sz();
        assert(-3 * (s * c) <= sum <= 3 * (s * c)) by (nonlinear_arith)
            requires
                -SCALE <= m.entry(i, 0) <= SCALE,
                -SCALE <= m.entry(i, 1) <= SCALE,
                -SCALE <= m.entry(i, 2) <= SCALE,
                -c <= v.sx() <= c,
                -c <= v.sy() <= c,
                -c <= v.sz() <= c,
                s == SCALE as int,
                sum == m.entry(i, 0) * v.sx() + m.entry(i, 1) * v.sy() + m.entry(i, 2) * v.sz(),
                c >= 0,
        ;
        crate::math::lemma_div_trunc_bound(sum, s, 3 * (s * c));
        assert(3 * (s * c) / s == 3 * c) by (nonlinear_arith)
            requires s == SCALE as int, c >= 0;
    }
}

/// Exactly divisible scaling cancels.
pub proof fn lemma_dt_exact(a: int)
    ensures
        div_trunc(a * (SCALE as int), SCALE as int) == a,
{
    let s = SCALE as int;
    if a >= 0 {
        assert(a * s / s == a) by (nonlinear_arith)
            requires s == SCALE as int, a >= 0;
    } else {
        assert(-(a * s) == (-a) * s) by (nonlinear_arith);
        assert((-a) * s / s == -a) by (nonlinear_arith)
            requires s == SCALE as int, a < 0;
    }
}

/// The smallest projection of the frame origins onto `a`, from one unit
/// of a million micro-units downward.
pub open spec fn sp_min_proj(ps: Seq<Axis>, a: V3) -> int
    decreases ps.len(),
{
    if ps.len() == 0 {
        1_000_000_000_000
    } else {
        let prev = sp_min_proj(ps.drop_last(), a);
        let d = ps.last().p.spec_dot(a);
        if d < prev {
            d
        } else {
            prev
        }
    }
}

/// The largest projection, from zero upward.
pub open spec fn sp_max_proj(ps: Seq<Axis>, a: V3) -> int
    decreases ps.len(),
{
    if ps.len() == 0 {
        0
    } else {
        let prev = sp_max_proj(ps.drop_last(), a);
        let d = ps.last().p.spec_dot(a);
        if d > prev {
            d
        } else {
            prev
        }
    }
}

pub proof fn lemma_proj_bounds(ps: Seq<Axis>, a: V3)
    requires
        forall|i: int|
            0 <= i < ps.len() ==> {
                let p = (#[trigger] ps[i]).p;
                -100_000_000_000 <= p.sx() <= 100_000_000_000 && -100_000_000_000 <= p.sy()
                    <= 100_000_000_000 && -100_000_000_000 <= p.sz() <= 100_000_000_000
            },
        -4_000_000 <= a.sx() <= 4_000_000,
        -4_000_000 <= a.sy() <= 4_000_000,
        -4_000_000 <= a.sz() <= 4_000_000,
    ensures
        -1_200_000_000_000 <= sp_min_proj(ps, a) <= 1_000_000_000_000,
        0 <= sp_max_proj(ps, a) <= 1_200_000_000_000,
    decreases ps.len(),
{
    if ps.len() > 0 {
        lemma_proj_bounds(ps.drop_last(), a);
        let p = ps.last().p;
        let s = SCALE as int;
        let sum = p.sx() * a.sx() + p.sy() * a.sy() + p.sz() * a.sz();
        assert(-1_200_000_000_000_000_000 <= sum <= 1_200_000_000_000_000_000)
            by (nonlinear_arith)
            requires
                -100_000_000_000 <= p.sx() <= 100_000_000_000,
                -100_000_000_000 <= p.sy() <= 100_000_000_000,
                -100_000_000_000 <= p.sz() <= 100_000_000_000,
                -4_000_000 <= a.sx() <= 4_000_000,
                -4_000_000 <= a.sy() <= 4_000_000,
                -4_000_000 <= a.sz() <= 4_000_000,
                sum == p.sx() * a.sx() + p.sy() * a.sy() + p.sz() * a.sz(),
        ;
        crate::math::lemma_div_trunc_bound(sum, s, 1_200_000_000_000_000_000);
        assert(1_200_000_000_000_000_000int / 1_000_000int == 1_200_000_000_000int)
            by (nonlinear_arith);
    }
}

/// Halves a value, truncating toward zero.
pub fn half(a: i64) -> (r: i64)
    ensures
        r as int == div_trunc(a as int, 2),
{
    if a >= 0 {
        a / 2
    } else {
        let q = (-(a as i128)) / 2;
        proof {
            assert((-(a as int)) / 2 >= 0 && (-(a as int)) / 2 <= -(a as int))
                by (nonlinear_arith)
                requires a < 0;
        }
        (-(q)) as i64
    }
}

/// Measures the stock: per-axis extents of the plane origins, and the
/// center of the two in-plane extents, with the feed-axis center fixed
/// at zero.
pub fn get_size_and_origin(axes: &(V3, V3, V3), plane_axes: &Vec<Axis>) -> (r: (V3, V3))
    requires
        -4_000_000 <= axes.0.sx() <= 4_000_000 && -4_000_000 <= axes.0.sy() <= 4_000_000
            && -4_000_000 <= axes.0.sz() <= 4_000_000,
        -4_000_000 <= axes.1.sx() <= 4_000_000 && -4_000_000 <= axes.1.sy() <= 4_000_000
            && -4_000_000 <= axes.1.sz() <= 4_000_000,
        -4_000_000 <= axes.2.sx() <= 4_000_000 && -4_000_000 <= axes.2.sy() <= 4_000_000
            && -4_000_000 <= axes.2.sz() <= 4_000_000,
        forall|i: int|
            0 <= i < plane_axes@.len() ==> {
                let p = (#[trigger] plane_axes@[i]).p;
                -100_000_000_000 <= p.sx() <= 100_000_000_000 && -100_000_000_000 <= p.sy()
                    <= 100_000_000_000 && -100_000_000_000 <= p.sz() <= 100_000_000_000
            },
    ensures
        ({
            let ps = plane_axes@;
            let size = r.0;
            let origin = r.1;
            &&& size.sx() == sp_max_proj(ps, axes.0) - sp_min_proj(ps, axes.0)
            &&& size.sy() == sp_max_proj(ps, axes.1) - sp_min_proj(ps, axes.1)
            &&& size.sz() == sp_max_proj(ps, axes.2) - sp_min_proj(ps, axes.2)
            &&& origin.sx() == div_trunc(
                sp_min_proj(ps, axes.0) + sp_max_proj(ps, axes.0),
                2,
            )
            &&& origin.sy() == div_trunc(
                sp_min_proj(ps, axes.1) + sp_max_proj(ps, axes.1),
                2,
            )
            &&& origin.sz() == 0
            &&& -1_150_000_000_000 <= origin.sx() <= 1_150_000_000_000
            &&& -1_150_000_000_000 <= origin.sy() <= 1_150_000_000_000
            &&& -2_400_000_000_000 <= size.sx() <= 2_400_000_000_000
            &&& -2_400_000_000_000 <= size.sy() <= 2_400_000_000_000
            &&& -2_400_000_000_000 <= size.sz() <= 2_400_000_000_000
        }),
{
    let ghost ps = plane_axes@;
    let mut mins: [i64; 3] = [1_000_000_000_000, 1_000_000_000_000, 1_000_000_000_000];
    let mut maxs: [i64; 3] = [0, 0, 0];
    let n = plane_axes.len();
    let mut k: usize = 0;
    proof {
        assert(ps.take(0) =~= Seq::<Axis>::empty());
        lemma_proj_bounds(ps.take(0), axes.0);
    }
    #[verifier::loop_isolation(false)]
    while k < n
        invariant
            0 <= k <= n,
            mins[0] as int == sp_min_proj(ps.take(k as int), axes.0),
            mins[1] as int == sp_min_proj(ps.take(k as int), axes.1),
            mins[2] as int == sp_min_proj(ps.take(k as int), axes.2),
            maxs[0] as int == sp_max_proj(ps.take(k as int), axes.0),
            maxs[1] as int == sp_max_proj(ps.take(k as int), axes.1),
            maxs[2] as int == sp_max_proj(ps.take(k as int), axes.2),
        decreases n - k,
    {
        proof {
            assert(ps.take(k as int + 1).drop_last() =~= ps.take(k as int));
            assert(ps.take(k as int + 1).last() == ps[k as int]);
            assert(forall|i: int|
                0 <= i < ps.take(k as int).len() ==> ps.take(k as int)[i] == ps[i]);
        }
        let ax = &plane_axes[k];
        proof {
            assert(ax.p.bounded());
        }
        let d0 = ax.p.dot(&axes.0);
        let d1 = ax.p.dot(&axes.1);
        let d2 = ax.p.dot(&axes.2);
        if d0 < mins[0] {
            mins[0] = d0;
        }
        if d1 < mins[1] {
            mins[1] = d1;
        }
        if d2 < mins[2] {
            mins[2] = d2;
        }
        if d0 > maxs[0] {
            maxs[0] = d0;
        }
        if d1 > maxs[1] {
            maxs[1] = d1;
        }
        if d2 > maxs[2] {
            maxs[2] = d2;
        }
        k = k + 1;
    }
    proof {
        assert(ps.take(n as int) =~= ps);
        lemma_proj_bounds(ps, axes.0);
        lemma_proj_bounds(ps, axes.1);
        lemma_proj_bounds(ps, axes.2);
    }
    let size = V3([maxs[0] - mins[0], maxs[1] - mins[1], maxs[2] - mins[2]]);
    let origin = V3([half(mins[0] + maxs[0]), half(mins[1] + maxs[1]), 0]);
    proof {
        crate::math::lemma_div_trunc_bound(
            mins[0] as int + maxs[0] as int,
            2,
            2_300_000_000_000,
        );
        crate::math::lemma_div_trunc_bound(
            mins[1] as int + maxs[1] as int,
            2,
            2_300_000_000_000,
        );
    }
    (size, origin)
}

/// Reduces the aligned cylinders to drill descriptors relative to the
/// stock origin: depth along the feed axis, approach angle of the
/// cylinder axis, and the signed in-plane offset perpendicular to it.
pub fn cylinders_to_drills(orig: &V3, cylinders: &Vec<(i64, Axis)>) -> (r: Vec<Drill>)
    requires
        -1_150_000_000_000 <= orig.sx() <= 1_150_000_000_000,
        -1_150_000_000_000 <= orig.sy() <= 1_150_000_000_000,
        -1_150_000_000_000 <= orig.sz() <= 1_150_000_000_000,
        forall|i: int|
            0 <= i < cylinders@.len() ==> {
                let c = #[trigger] cylinders@[i];
                &&& -100_000_000_000 <= c.1.p.sx() <= 100_000_000_000
                &&& -100_000_000_000 <= c.1.p.sy() <= 100_000_000_000
                &&& -100_000_000_000 <= c.1.p.sz() <= 100_000_000_000
                &&& -100_000_000_000 <= c.1.direction.sx() <= 100_000_000_000
                &&& -100_000_000_000 <= c.1.direction.sy() <= 100_000_000_000
                &&& -100_000_000_000 <= c.1.direction.sz() <= 100_000_000_000
            },
    ensures
        r@.len() == cylinders@.len(),
        forall|i: int|
            0 <= i < cylinders@.len() ==> {
                let c = (#[trigger] cylinders@[i]).1;
                let dr = r@[i];
                &&& dr.d == c.p.sz() - orig.sz()
                &&& dr.theta as int == sp_atan2(c.direction.sy(), c.direction.sx())
                &&& dr.slide as int == div_trunc(
                    (c.p.sx() - orig.sx()) * c.direction.sy() - (c.p.sy() - orig.sy())
                        * c.direction.sx(),
                    SCALE as int,
                )
            },
{
    let n = cylinders.len();
    let mut drills: Vec<Drill> = Vec::new();
    let mut k: usize = 0;
    #[verifier::loop_isolation(false)]
    while k < n
        invariant
            0 <= k <= n,
            drills@.len() == k,
            forall|i: int|
                0 <= i < k ==> {
                    let c = (#[trigger] cylinders@[i]).1;
                    let dr = drills@[i];
                    &&& dr.d == c.p.sz() - orig.sz()
                    &&& dr.theta as int == sp_atan2(c.direction.sy(), c.direction.sx())
                    &&& dr.slide as int == div_trunc(
                        (c.p.sx() - orig.sx()) * c.direction.sy() - (c.p.sy() - orig.sy())
                            * c.direction.sx(),
                        SCALE as int,
                    )
                },
        decreases n - k,
    {
        let cyl = &cylinders[k];
        let p = cyl.1.p.sub(orig);
        let dir = &cyl.1.direction;
        let theta = atan2_udeg(dir.y(), dir.x());
        let zu = V3([0, 0, SCALE]);
        let cr = dir.cross(&zu);
        proof {
            assert(zu.sx() == 0 && zu.sy() == 0 && zu.sz() == SCALE as int);
            assert(dir.sy() * zu.sz() - dir.sz() * zu.sy() == dir.sy() * (SCALE as int))
                by (nonlinear_arith)
                requires zu.sy() == 0, zu.sz() == SCALE as int;
            assert(dir.sz() * zu.sx() - dir.sx() * zu.sz() == (-dir.sx()) * (SCALE as int))
                by (nonlinear_arith)
                requires zu.sx() == 0, zu.sz() == SCALE as int;
            assert(dir.sx() * zu.sy() - dir.sy() * zu.sx() == 0) by (nonlinear_arith)
                requires zu.sx() == 0, zu.sy() == 0;
            lemma_dt_exact(dir.sy());
            lemma_dt_exact(-dir.sx());
            assert(div_trunc(0, SCALE as int) == 0);
            assert(cr.sx() == dir.sy());
            assert(cr.sy() == -dir.sx());
            assert(cr.sz() == 0);
        }
        let slide = p.dot(&cr);
        proof {
            assert(p.sx() * cr.sx() + p.sy() * cr.sy() + p.sz() * cr.sz() == p.sx() * dir.sy()
                - p.sy() * dir.sx()) by (nonlinear_arith)
                requires cr.sx() == dir.sy(), cr.sy() == -dir.sx(), cr.sz() == 0;
        }
        let d = p.z();
        drills.push(Drill { theta, d, slide });
        k = k + 1;
    }
    drills
}

} // verus!

verus! {

// ---------------------------------------------------------------------------
// The whole analysis.
// ---------------------------------------------------------------------------

/// The frames of the plane faces, in face order.
pub open spec fn sp_planes(fs: Seq<AdvancedFace>) -> Seq<Axis>
    decreases fs.len(),
{
    if fs.len() == 0 {
        Seq::empty()
    } else {
        let prev = sp_planes(fs.drop_last());
        match fs.last().elem {
            FaceElement::Plane(ax) => prev.push(ax),
            FaceElement::Cylinder(_, _) => prev,
        }
    }
}

/// The cylindrical faces with their radii, in face order.
pub open spec fn sp_cyls(fs: Seq<AdvancedFace>) -> Seq<(i64, Axis)>
    decreases fs.len(),
{
    if fs.len() == 0 {
        Seq::empty()
    } else {
        let prev = sp_cyls(fs.drop_last());
        match fs.last().elem {
            FaceElement::Cylinder(r, ax) => prev.push((r, ax)),
            FaceElement::Plane(_) => prev,
        }
    }
}

/// `b` is the frame `a` turned by `rm`.
pub open spec fn axis_rot_ok(rm: Mat3x3, a: Axis, b: Axis) -> bool {
    &&& v3_triple(b.p) == (
        rm.spec_prod_vec_entry(a.p, 0),
        rm.spec_prod_vec_entry(a.p, 1),
        rm.spec_prod_vec_entry(a.p, 2),
    )
    &&& v3_triple(b.direction) == (
        rm.spec_prod_vec_entry(a.direction, 0),
        rm.spec_prod_vec_entry(a.direction, 1),
        rm.spec_prod_vec_entry(a.direction, 2),
    )
    &&& v3_triple(b.ref_direction) == (
        rm.spec_prod_vec_entry(a.ref_direction, 0),
        rm.spec_prod_vec_entry(a.ref_direction, 1),
        rm.spec_prod_vec_entry(a.ref_direction, 2),
    )
}

/// The whole analysis, step by step: the canonical axes picked from the
/// plane-normal families, the alignment rotation of the feed axis, the
/// rotated axes and faces, the measured stock and the reduced drills.
pub open spec fn proc_chain(
    fs: Seq<AdvancedFace>,
    xa: V3,
    ya: V3,
    za: V3,
    rm: Mat3x3,
    xr: V3,
    yr: V3,
    zr: V3,
    aligned: Seq<Axis>,
    cyl_al: Seq<(i64, Axis)>,
    p: Proc,
) -> bool {
    let planes = sp_planes(fs);
    let cyls = sp_cyls(fs);
    &&& (v3_triple(xa), v3_triple(ya), v3_triple(za)) == sp_pick(sp_dir_counts(sp_dirs(planes)))
    &&& mat_is_align(rm, za)
    &&& v3_triple(xr) == (
        rm.spec_prod_vec_entry(xa, 0),
        rm.spec_prod_vec_entry(xa, 1),
        rm.spec_prod_vec_entry(xa, 2),
    )
    &&& v3_triple(yr) == (
        rm.spec_prod_vec_entry(ya, 0),
        rm.spec_prod_vec_entry(ya, 1),
        rm.spec_prod_vec_entry(ya, 2),
    )
    &&& v3_triple(zr) == (
        rm.spec_prod_vec_entry(za, 0),
        rm.spec_prod_vec_entry(za, 1),
        rm.spec_prod_vec_entry(za, 2),
    )
    &&& aligned.len() == planes.len()
    &&& forall|i: int| 0 <= i < planes.len() ==> axis_rot_ok(rm, planes[i], #[trigger] aligned[i])
    &&& p.size.sx() == sp_max_proj(aligned, xr) - sp_min_proj(aligned, xr)
    &&& p.size.sy() == sp_max_proj(aligned, yr) - sp_min_proj(aligned, yr)
    &&& p.size.sz() == sp_max_proj(aligned, zr) - sp_min_proj(aligned, zr)
    &&& p.center.sx() == div_trunc(sp_min_proj(aligned, xr) + sp_max_proj(aligned, xr), 2)
    &&& p.center.sy() == div_trunc(sp_min_proj(aligned, yr) + sp_max_proj(aligned, yr), 2)
    &&& p.center.sz() == 0
    &&& cyl_al.len() == cyls.len()
    &&& forall|i: int|
        0 <= i < cyls.len() ==> (#[trigger] cyl_al[i]).0 == cyls[i].0 && axis_rot_ok(
            rm,
            cyls[i].1,
            cyl_al[i].1,
        )
    &&& p.drills@.len() == cyl_al.len()
    &&& forall|i: int|
        0 <= i < cyl_al.len() ==> {
            let c = (#[trigger] cyl_al[i]).1;
            let dr = p.drills@[i];
            &&& dr.d == c.p.sz() - p.center.sz()
            &&& dr.theta as int == sp_atan2(c.direction.sy(), c.direction.sx())
            &&& dr.slide as int == div_trunc(
                (c.p.sx() - p.center.sx()) * c.direction.sy() - (c.p.sy() - p.center.sy())
                    * c.direction.sx(),
                SCALE as int,
            )
        }
}

impl Proc {
    /// Runs the analyzer over the resolved faces.
    pub fn new(faces: &Vec<AdvancedFace>) -> (r: Proc)
        requires
            forall|i: int| crate::resolve::face_bounded(#[trigger] faces@[i]) || !(0 <= i
                < faces@.len()),
        ensures
            exists|
                xa: V3,
                ya: V3,
                za: V3,
                rm: Mat3x3,
                xr: V3,
                yr: V3,
                zr: V3,
                aligned: Seq<Axis>,
                cyl_al: Seq<(i64, Axis)>,
            |
                #[trigger] proc_chain(faces@, xa, ya, za, rm, xr, yr, zr, aligned, cyl_al, r),
            r.center.sz() == 0,
            r.drills@.len() == sp_cyls(faces@).len(),
            -2_400_000_000_000 <= r.size.sx() <= 2_400_000_000_000,
            -2_400_000_000_000 <= r.size.sy() <= 2_400_000_000_000,
            -2_400_000_000_000 <= r.size.sz() <= 2_400_000_000_000,
    {
        let ghost fs = faces@;
        let n = faces.len();
        let mut plane_axes: Vec<Axis> = Vec::new();
        let mut k: usize = 0;
        proof {
            assert(fs.take(0) =~= Seq::<AdvancedFace>::empty());
        }
        #[verifier::loop_isolation(false)]
        while k < n
            invariant
                0 <= k <= n,
                plane_axes@ == sp_planes(fs.take(k as int)),
                forall|i: int|
                    0 <= i < plane_axes@.len() ==> crate::resolve::axis_bounded(
                        #[trigger] plane_axes@[i],
                    ),
            decreases n - k,
        {
            proof {
                assert(fs.take(k as int + 1).drop_last() =~= fs.take(k as int));
                assert(fs.take(k as int + 1).last() == fs[k as int]);
            }
            match &faces[k].elem {
                FaceElement::Plane(ax) => {
                    plane_axes.push(*ax);
                },
                FaceElement::Cylinder(_, _) => {},
            }
            k = k + 1;
        }
        proof {
            assert(fs.take(n as int) =~= fs);
            assert(forall|i: int|
                0 <= i < plane_axes@.len() ==> (#[trigger] plane_axes@[i]).direction.bounded());
        }
        let ghost planes = sp_planes(fs);
        let axs = get_axes(&plane_axes);
        let ax_x = axs.0;
        let ax_y = axs.1;
        let ax_z = axs.2;
        let r_mat = get_align_mat(&ax_z);
        proof {
            lemma_rot_bound(r_mat, ax_x, 1_000_000);
            lemma_rot_bound(r_mat, ax_y, 1_000_000);
            lemma_rot_bound(r_mat, ax_z, 1_000_000);
        }
        let ax_xr = r_mat.prod_vec(&ax_x);
        let ax_yr = r_mat.prod_vec(&ax_y);
        let ax_zr = r_mat.prod_vec(&ax_z);
        let m = plane_axes.len();
        let mut aligned: Vec<Axis> = Vec::new();
        let mut t: usize = 0;
        #[verifier::loop_isolation(false)]
        while t < m
            invariant
                0 <= t <= m == plane_axes@.len(),
                aligned@.len() == t,
                forall|i: int|
                    0 <= i < t ==> axis_rot_ok(r_mat, plane_axes@[i], #[trigger] aligned@[i]),
                forall|i: int|
                    0 <= i < t ==> {
                        let p = (#[trigger] aligned@[i]).p;
                        -100_000_000_000 <= p.sx() <= 100_000_000_000 && -100_000_000_000
                            <= p.sy() <= 100_000_000_000 && -100_000_000_000 <= p.sz()
                            <= 100_000_000_000
                    },
            decreases m - t,
        {
            let ax = &plane_axes[t];
            proof {
                lemma_rot_bound(r_mat, ax.p, crate::num::COORD_LIMIT as int);
            }
            let al = align(&r_mat, ax);
            aligned.push(al);
            t = t + 1;
        }
        let so = get_size_and_origin(&(ax_xr, ax_yr, ax_zr), &aligned);
        let size = so.0;
        let origin = so.1;
        let mut cylinders: Vec<(i64, Axis)> = Vec::new();
        let mut c: usize = 0;
        proof {
            assert(fs.take(0) =~= Seq::<AdvancedFace>::empty());
        }
        #[verifier::loop_isolation(false)]
        while c < n
            invariant
                0 <= c <= n,
                cylinders@.len() == sp_cyls(fs.take(c as int)).len(),
                forall|i: int|
                    0 <= i < cylinders@.len() ==> (#[trigger] cylinders@[i]).0 == sp_cyls(
                        fs.take(c as int),
                    )[i].0 && axis_rot_ok(
                        r_mat,
                        sp_cyls(fs.take(c as int))[i].1,
                        cylinders@[i].1,
                    ),
                forall|i: int|
                    0 <= i < cylinders@.len() ==> {
                        let cc = (#[trigger] cylinders@[i]).1;
                        &&& -100_000_000_000 <= cc.p.sx() <= 100_000_000_000
                        &&& -100_000_000_000 <= cc.p.sy() <= 100_000_000_000
                        &&& -100_000_000_000 <= cc.p.sz() <= 100_000_000_000
                        &&& -100_000_000_000 <= cc.direction.sx() <= 100_000_000_000
                        &&& -100_000_000_000 <= cc.direction.sy() <= 100_000_000_000
                        &&& -100_000_000_000 <= cc.direction.sz() <= 100_000_000_000
                    },
            decreases n - c,
        {
            proof {
                assert(fs.take(c as int + 1).drop_last() =~= fs.take(c as int));
                assert(fs.take(c as int + 1).last() == fs[c as int]);
            }
            match &faces[c].elem {
                FaceElement::Cylinder(rad, ax) => {
                    proof {
                        lemma_rot_bound(r_mat, ax.p, crate::num::COORD_LIMIT as int);
                        lemma_rot_bound(r_mat, ax.direction, crate::num::COORD_LIMIT as int);
                    }
                    let al = align(&r_mat, ax);
                    cylinders.push((*rad, al));
                },
                FaceElement::Plane(_) => {},
            }
            c = c + 1;
        }
        proof {
            assert(fs.take(n as int) =~= fs);
        }
        let drills = cylinders_to_drills(&origin, &cylinders);
        let result = Proc { size, center: origin, drills };
        proof {
            assert(proc_chain(
                fs,
                ax_x,
                ax_y,
                ax_z,
                r_mat,
                ax_xr,
                ax_yr,
                ax_zr,
                aligned@,
                cylinders@,
                result,
            ));
        }
        result
    }
}

} // verus!
