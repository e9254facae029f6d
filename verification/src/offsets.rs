//! The offsets of the pixels from a reference point, as operations at high precision.
//!
//! The offset of column `k` of `n` is `shift + (k/n - 0.5)*extent`, where `shift` is the centre
//! of the view less the reference point and `extent` is the view's width; likewise for the rows.
//! In binary64 the difference would cancel, so the operations are carried out outside, at the
//! precision of the view, and only their result is rounded. Which operations they are, and in
//! which order, is said here.
use vstd::prelude::*;
use vstd::arithmetic::power2::{lemma_pow2_adds, lemma_pow2_pos, pow2};
use crate::double::{num, Double, HALF};
use crate::rounding::{lemma_p52_p53, lemma_parts_unique, P52, UNIT_EXP};

verus! {

/// An operation on a number at high precision.
#[derive(Clone, Copy, PartialEq, Eq, Structural, Debug)]
pub enum HpOp {
    /// Start with an integer.
    Load(u32),
    /// Divide by an integer.
    Divide(u32),
    /// Subtract a number.
    Subtract(Double),
    /// Multiply by a number.
    Multiply(Double),
    /// Add the shift of the view's centre from the reference point.
    AddShift,
}

/// The operations that give the offset of column `k` of `n`.
pub open spec fn offset_ops(k: u32, n: u32, extent: Double) -> Seq<HpOp> {
    seq![
        HpOp::Load(k),
        HpOp::Divide(n),
        HpOp::Subtract(num(HALF)),
        HpOp::Multiply(extent),
        HpOp::AddShift,
    ]
}

/// The operations that give the offset of column `k` of `n`, in a view `extent` wide.
fn ops_for(k: u32, n: u32, extent: Double) -> (r: Vec<HpOp>)
    ensures
        r@ == offset_ops(k, n, extent),
{
    let mut ops: Vec<HpOp> = Vec::new();
    ops.push(HpOp::Load(k));
    ops.push(HpOp::Divide(n));
    ops.push(HpOp::Subtract(Double::new(HALF)));
    ops.push(HpOp::Multiply(extent));
    ops.push(HpOp::AddShift);
    assert(ops@ =~= offset_ops(k, n, extent));
    ops
}

/// Whether operations are those for each of `n` columns, in their order.
pub open spec fn are_offset_ops(ops: Seq<Vec<HpOp>>, n: u32, extent: Double) -> bool {
    forall|k: int| 0 <= k < n ==> (#[trigger] ops[k])@ == offset_ops(k as u32, n, extent)
}

/// The operations for each of `n` columns.
fn all_ops(n: u32, extent: Double) -> (r: Vec<Vec<HpOp>>)
    ensures
        r@.len() == n,
        forall|k: int| 0 <= k < n ==> (#[trigger] r@[k])@ == offset_ops(k as u32, n, extent),
{
    let mut out: Vec<Vec<HpOp>> = Vec::new();
    let mut k: u32 = 0;
    while k < n
        invariant
            k <= n,
            out@.len() == k,
            forall|j: int| 0 <= j < k ==> (#[trigger] out@[j])@ == offset_ops(j as u32, n, extent),
        decreases n - k,
    {
        out.push(ops_for(k, n, extent));
        k = k + 1;
    }
    out
}

/// The operations that give the offset of every column and of every row of an image on a view.
pub fn compute_deltas_hp(view_w: Double, view_h: Double, img_w: u32, img_h: u32) -> (r: (
    Vec<Vec<HpOp>>,
    Vec<Vec<HpOp>>,
))
    ensures
        r.0@.len() == img_w,
        r.1@.len() == img_h,
        forall|x: int|
            0 <= x < img_w ==> (#[trigger] r.0@[x])@ == offset_ops(x as u32, img_w, view_w),
        forall|y: int|
            0 <= y < img_h ==> (#[trigger] r.1@[y])@ == offset_ops(y as u32, img_h, view_h),
        are_offset_ops(r.0@, img_w, view_w),
        are_offset_ops(r.1@, img_h, view_h),
{
    (all_ops(img_w, view_w), all_ops(img_h, view_h))
}

/// A rational number; its denominator is not zero.
pub struct Ratio {
    /// The numerator.
    pub num: int,
    /// The denominator.
    pub den: int,
}

impl Ratio {
    /// Whether two rational numbers are equal.
    pub open spec fn equals(self, other: Ratio) -> bool {
        self.num * other.den == other.num * self.den
    }

    /// The sum.
    pub open spec fn plus(self, other: Ratio) -> Ratio {
        Ratio { num: self.num * other.den + other.num * self.den, den: self.den * other.den }
    }

    /// The product.
    pub open spec fn times(self, other: Ratio) -> Ratio {
        Ratio { num: self.num * other.num, den: self.den * other.den }
    }
}

/// The value of a finite number.
pub open spec fn ratio_of(v: Double) -> Ratio {
    Ratio { num: v.value(), den: pow2(UNIT_EXP as nat) as int }
}

impl HpOp {
    /// What the operation makes of a number, without any rounding.
    pub open spec fn apply(self, x: Ratio, shift: Ratio) -> Ratio {
        match self {
            HpOp::Load(k) => Ratio { num: k as int, den: 1 },
            HpOp::Divide(n) => Ratio { num: x.num, den: x.den * n },
            HpOp::Subtract(v) => Ratio {
                num: x.num * ratio_of(v).den - ratio_of(v).num * x.den,
                den: x.den * ratio_of(v).den,
            },
            HpOp::Multiply(v) => x.times(ratio_of(v)),
            HpOp::AddShift => x.plus(shift),
        }
    }
}

/// What the first `i` operations make of zero, without any rounding.
pub open spec fn run_ops(ops: Seq<HpOp>, shift: Ratio, i: nat) -> Ratio
    decreases i,
{
    if i == 0 {
        Ratio { num: 0, den: 1 }
    } else {
        ops[i - 1].apply(run_ops(ops, shift, (i - 1) as nat), shift)
    }
}

/// `shift + (k/n - 1/2)*extent`.
pub open spec fn exact_offset(k: u32, n: u32, extent: Double, shift: Ratio) -> Ratio {
    shift.plus((Ratio { num: 2 * k - n, den: 2 * n }).times(ratio_of(extent)))
}

/// The half, in units.
pub proof fn lemma_half()
    ensures
        num(HALF).value() == pow2(1073),
        pow2(UNIT_EXP as nat) == 2 * pow2(1073),
        pow2(1073) > 0,
{
    lemma_parts_unique(HALF as nat, 1021, P52 as nat);
    lemma_p52_p53();
    lemma_pow2_adds(52, 1021);
    vstd::arithmetic::power2::lemma_pow2_unfold(UNIT_EXP as nat);
    lemma_pow2_pos(1073);
}

/// Without any rounding the operations give the offset `shift + (k/n - 1/2)*extent`.
pub proof fn operations_give_the_offset(k: u32, n: u32, extent: Double, shift: Ratio)
    requires
        k < n,
        shift.den != 0,
    ensures
        run_ops(offset_ops(k, n, extent), shift, 5).den != 0,
        run_ops(offset_ops(k, n, extent), shift, 5).equals(exact_offset(k, n, extent, shift)),
{
    reveal_with_fuel(run_ops, 6);
    lemma_half();
    let h = pow2(1073) as int;
    let u = pow2(UNIT_EXP as nat) as int;
    let v = extent.value();
    let (sn, sd) = (shift.num, shift.den);
    let ki = k as int;
    let ni = n as int;
    let r = run_ops(offset_ops(k, n, extent), shift, 5);
    let m = 2 * ki - ni;
    // After the subtraction, after the multiplication, and at the end.
    let a = ki * u - h * (1 * ni);
    let b = (1 * ni) * u;
    assert(r.num == (a * v) * sd + sn * (b * u));
    assert(r.den == (b * u) * sd);
    assert(a == h * m) by (nonlinear_arith)
        requires
            a == ki * u - h * (1 * ni),
            u == 2 * h,
            m == 2 * ki - ni,
    ;
    assert(b > 0) by (nonlinear_arith)
        requires
            b == (1 * ni) * u,
            ni > 0,
            u > 0,
    ;
    assert(r.den != 0) by (nonlinear_arith)
        requires
            r.den == (b * u) * sd,
            b > 0,
            u > 0,
            sd != 0,
    ;
    let e = exact_offset(k, n, extent, shift);
    let p = (2 * ni) * u;
    assert(e.num == sn * p + (m * v) * sd);
    assert(e.den == sd * p);
    let w = m * v;
    assert(a * v == h * w) by (nonlinear_arith)
        requires
            a == h * m,
            w == m * v,
    ;
    // Both denominators are multiples of `p`: `b * u` is `h * p`.
    assert(b * u == h * p) by (nonlinear_arith)
        requires
            b == (1 * ni) * u,
            p == (2 * ni) * u,
            u == 2 * h,
    ;
    assert(r.num == h * e.num) by (nonlinear_arith)
        requires
            r.num == (h * w) * sd + sn * (h * p),
            e.num == sn * p + w * sd,
    ;
    assert(r.den == h * e.den) by (nonlinear_arith)
        requires
            r.den == (h * p) * sd,
            e.den == sd * p,
    ;
    assert(r.num * e.den == e.num * r.den) by (nonlinear_arith)
        requires
            r.num == h * e.num,
            r.den == h * e.den,
    ;
}

/// Without any rounding, the operations for a column give its offset by the width of the view,
/// and those for a row give its offset by the height: column `x` of `w` lies `x/w - 1/2` of the
/// width from the centre, and row `y` of `h` lies `y/h - 1/2` of the height from it.
pub proof fn columns_go_by_width_and_rows_by_height(
    view_w: Double,
    view_h: Double,
    img_w: u32,
    img_h: u32,
    r: (Vec<Vec<HpOp>>, Vec<Vec<HpOp>>),
    x: u32,
    y: u32,
    shift: Ratio,
)
    requires
        call_ensures(compute_deltas_hp, (view_w, view_h, img_w, img_h), r),
        x < img_w,
        y < img_h,
        shift.den != 0,
    ensures
        ({
            let u = pow2(UNIT_EXP as nat) as int;
            let ops = r.0@[x as int]@;
            run_ops(ops, shift, ops.len()).equals(
                shift.plus((Ratio { num: (x + x - img_w) * view_w.value(), den: (2 * img_w) * u })),
            )
        }),
        ({
            let u = pow2(UNIT_EXP as nat) as int;
            let ops = r.1@[y as int]@;
            run_ops(ops, shift, ops.len()).equals(
                shift.plus((Ratio { num: (y + y - img_h) * view_h.value(), den: (2 * img_h) * u })),
            )
        }),
{
    assert(r.0@[x as int]@ == offset_ops(x, img_w, view_w));
    assert(r.1@[y as int]@ == offset_ops(y, img_h, view_h));
    operations_give_the_offset(x, img_w, view_w, shift);
    operations_give_the_offset(y, img_h, view_h, shift);
    assert(x + x - img_w == 2 * x - img_w);
    assert(y + y - img_h == 2 * y - img_h);
}

}
