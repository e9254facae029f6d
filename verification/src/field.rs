//! The result field of a rendering: one escape count and one squared magnitude per pixel.
use vstd::prelude::*;
use crate::double::{num, Double, ZERO};

verus! {

/// The escape count that marks a pixel whose iteration lost its accuracy.
pub const GLITCH_MARKER: u32 = 0xffff_ffff;

/// The result of every pixel, row by row, in two arrays of one length.
pub struct IterField {
    /// The iteration at which the pixel escaped; the iteration limit for a pixel that did not;
    /// [`GLITCH_MARKER`] for a pixel that has to be computed again.
    pub iters: Vec<u32>,
    /// The squared magnitude at the escape; zero for a pixel that did not escape.
    pub mag_sq: Vec<Double>,
}

/// How many entries are glitches.
pub open spec fn glitches(s: Seq<u32>) -> nat
    decreases s.len(),
{
    if s.len() == 0 {
        0
    } else {
        glitches(s.drop_last()) + if s.last() == GLITCH_MARKER {
            1nat
        } else {
            0
        }
    }
}

/// The indices of the glitches, in ascending order.
pub open spec fn glitch_places(s: Seq<u32>) -> Seq<int>
    decreases s.len(),
{
    if s.len() == 0 {
        Seq::empty()
    } else if s.last() == GLITCH_MARKER {
        glitch_places(s.drop_last()).push(s.len() - 1)
    } else {
        glitch_places(s.drop_last())
    }
}

impl IterField {
    /// Whether the two arrays have one length.
    pub open spec fn wf(self) -> bool {
        self.iters@.len() == self.mag_sq@.len()
    }

    /// A field of `n` pixels, all zero.
    pub fn new(n: usize) -> (r: IterField)
        ensures
            r.wf(),
            r.iters@ == Seq::new(n as nat, |i: int| 0u32),
            r.mag_sq@ == Seq::new(n as nat, |i: int| num(ZERO)),
    {
        let mut iters: Vec<u32> = Vec::new();
        let mut mag_sq: Vec<Double> = Vec::new();
        let mut i: usize = 0;
        while i < n
            invariant
                i <= n,
                iters@ == Seq::new(i as nat, |i: int| 0u32),
                mag_sq@ == Seq::new(i as nat, |i: int| num(ZERO)),
            decreases n - i,
        {
            iters.push(0);
            mag_sq.push(Double::new(ZERO));
            i = i + 1;
        }
        IterField { iters, mag_sq }
    }

    /// What is recorded of a pixel.
    pub open spec fn entry(self, i: int) -> (u32, Double) {
        (self.iters@[i], self.mag_sq@[i])
    }

    /// Appends one pixel.
    pub fn push(&mut self, iters: u32, mag_sq: Double)
        requires
            old(self).wf(),
        ensures
            final(self).wf(),
            final(self).iters@ == old(self).iters@.push(iters),
            final(self).mag_sq@ == old(self).mag_sq@.push(mag_sq),
    {
        self.iters.push(iters);
        self.mag_sq.push(mag_sq);
    }

    /// Records one pixel anew.
    pub fn put(&mut self, i: usize, iters: u32, mag_sq: Double)
        requires
            old(self).wf(),
            i < old(self).iters@.len(),
        ensures
            final(self).wf(),
            final(self).iters@ == old(self).iters@.update(i as int, iters),
            final(self).mag_sq@ == old(self).mag_sq@.update(i as int, mag_sq),
    {
        self.iters[i] = iters;
        self.mag_sq[i] = mag_sq;
    }

    /// Puts rows of `w` pixels together, from the top.
    pub fn from_rows(rows: &Vec<IterField>, w: usize) -> (r: IterField)
        requires
            rows@.len() * w <= usize::MAX,
            forall|y: int|
                0 <= y < rows@.len() ==> (#[trigger] rows@[y]).wf() && rows@[y].iters@.len() == w,
        ensures
            r.wf(),
            r.iters@.len() == rows@.len() * w,
            forall|y: int, x: int|
                0 <= y < rows@.len() && 0 <= x < w ==> #[trigger] rows@[y].entry(x) == r.entry(
                    y * w + x,
                ),
    {
        let mut out: IterField = IterField { iters: Vec::new(), mag_sq: Vec::new() };
        let mut y: usize = 0;
        while y < rows.len()
            invariant
                y <= rows@.len(),
                rows@.len() * w <= usize::MAX,
                forall|v: int|
                    0 <= v < rows@.len() ==> (#[trigger] rows@[v]).wf() && rows@[v].iters@.len()
                        == w,
                out.wf(),
                out.iters@.len() == y * w,
                forall|v: int, x: int|
                    0 <= v < y && 0 <= x < w ==> #[trigger] rows@[v].entry(x) == out.entry(
                        v * w + x,
                    ),
            decreases rows@.len() - y,
        {
            let row: &IterField = &rows[y];
            let ghost top = out;
            let mut x: usize = 0;
            while x < w
                invariant
                    x <= w,
                    row.wf(),
                    row.iters@.len() == w,
                    out.wf(),
                    out.iters@.len() == top.iters@.len() + x,
                    out.mag_sq@.len() == top.mag_sq@.len() + x,
                    top.wf(),
                    forall|i: int| 0 <= i < top.iters@.len() ==> #[trigger] out.entry(i) == top.entry(i),
                    forall|u: int|
                        0 <= u < x ==> #[trigger] row.entry(u) == out.entry(top.iters@.len() + u),
                decreases w - x,
            {
                let ghost last = out;
                out.push(row.iters[x], row.mag_sq[x]);
                proof {
                    assert forall|i: int| 0 <= i < top.iters@.len() implies #[trigger] out.entry(i)
                        == top.entry(i) by {
                        assert(last.entry(i) == top.entry(i));
                    }
                    assert forall|u: int| 0 <= u < x + 1 implies #[trigger] row.entry(u)
                        == out.entry(top.iters@.len() + u) by {
                        if u < x {
                            assert(row.entry(u) == last.entry(top.iters@.len() + u));
                        }
                    }
                }
                x = x + 1;
            }
            proof {
                assert((y + 1) * w == y * w + w) by (nonlinear_arith);
                assert forall|v: int, u: int| 0 <= v < y + 1 && 0 <= u < w implies #[trigger] rows@[v].entry(
                    u,
                ) == out.entry(v * w + u) by {
                    if v < y {
                        assert(rows@[v].entry(u) == top.entry(v * w + u));
                        assert(0 <= v * w + u < y * w) by (nonlinear_arith)
                            requires
                                0 <= v < y,
                                0 <= u < w,
                        ;
                        assert(out.entry(v * w + u) == top.entry(v * w + u));
                    } else {
                        assert(row.entry(u) == out.entry(top.iters@.len() + u));
                    }
                }
            }
            y = y + 1;
        }
        out
    }

    /// The number of pixels that are marked as glitches.
    pub fn glitch_count(&self) -> (r: usize)
        ensures
            r == glitches(self.iters@),
    {
        let mut count: usize = 0;
        let mut i: usize = 0;
        while i < self.iters.len()
            invariant
                i <= self.iters@.len(),
                count <= i,
                count == glitches(self.iters@.take(i as int)),
            decreases self.iters@.len() - i,
        {
            proof {
                assert(self.iters@.take(i + 1).drop_last() == self.iters@.take(i as int));
            }
            if self.iters[i] == GLITCH_MARKER {
                count = count + 1;
            }
            i = i + 1;
        }
        proof {
            assert(self.iters@.take(i as int) == self.iters@);
        }
        count
    }

    /// The indices of the pixels that are marked as glitches, in ascending order.
    pub fn glitch_indices(&self) -> (r: Vec<usize>)
        ensures
            r@.len() == glitch_places(self.iters@).len(),
            forall|k: int| 0 <= k < r@.len() ==> r@[k] == #[trigger] glitch_places(self.iters@)[k],
    {
        let mut found: Vec<usize> = Vec::new();
        let mut i: usize = 0;
        while i < self.iters.len()
            invariant
                i <= self.iters@.len(),
                found@.len() == glitch_places(self.iters@.take(i as int)).len(),
                forall|k: int|
                    0 <= k < found@.len() ==> found@[k] == #[trigger] glitch_places(
                        self.iters@.take(i as int),
                    )[k],
            decreases self.iters@.len() - i,
        {
            proof {
                assert(self.iters@.take(i + 1).drop_last() == self.iters@.take(i as int));
            }
            if self.iters[i] == GLITCH_MARKER {
                found.push(i);
            }
            i = i + 1;
        }
        proof {
            assert(self.iters@.take(i as int) == self.iters@);
        }
        found
    }
}

/// Every listed place is a glitch, every glitch is listed, and the list ascends.
pub proof fn glitch_places_are_the_glitches(s: Seq<u32>)
    ensures
        glitch_places(s).len() == glitches(s),
        forall|k: int|
            0 <= k < glitch_places(s).len() ==> 0 <= #[trigger] glitch_places(s)[k] < s.len()
                && s[glitch_places(s)[k]] == GLITCH_MARKER,
        forall|j: int, k: int|
            0 <= j < k < glitch_places(s).len() ==> #[trigger] glitch_places(s)[j]
                < #[trigger] glitch_places(s)[k],
        forall|i: int|
            0 <= i < s.len() && #[trigger] s[i] == GLITCH_MARKER ==> glitch_places(s).contains(i),
    decreases s.len(),
{
    if s.len() > 0 {
        let t = s.drop_last();
        glitch_places_are_the_glitches(t);
        let p = glitch_places(t);
        let q = glitch_places(s);
        assert forall|i: int| 0 <= i < s.len() && #[trigger] s[i] == GLITCH_MARKER implies q.contains(
            i,
        ) by {
            if i < s.len() - 1 {
                assert(t[i] == GLITCH_MARKER);
                let k = choose|k: int| 0 <= k < p.len() && p[k] == i;
                assert(q[k] == i);
            } else {
                assert(q[q.len() - 1] == i);
            }
        }
        assert forall|k: int| 0 <= k < q.len() implies 0 <= #[trigger] q[k] < s.len() && s[q[k]]
            == GLITCH_MARKER by {
            if k < p.len() {
                assert(q[k] == p[k]);
                assert(t[p[k]] == GLITCH_MARKER);
            }
        }
    }
}

/// There are no glitches exactly where no entry is one.
pub proof fn no_glitches_left(s: Seq<u32>)
    ensures
        glitches(s) == 0 <==> (forall|i: int| 0 <= i < s.len() ==> #[trigger] s[i] != GLITCH_MARKER),
{
    glitch_places_are_the_glitches(s);
    if glitches(s) > 0 {
        let i = glitch_places(s)[0];
        assert(s[i] == GLITCH_MARKER);
    }
}

/// Replacing one entry changes the number of glitches by what the entry was and is.
pub proof fn lemma_glitches_update(s: Seq<u32>, i: int, v: u32)
    requires
        0 <= i < s.len(),
    ensures
        glitches(s.update(i, v)) + (if s[i] == GLITCH_MARKER {
            1nat
        } else {
            0
        }) == glitches(s) + (if v == GLITCH_MARKER {
            1nat
        } else {
            0
        }),
    decreases s.len(),
{
    let t = s.update(i, v);
    if i == s.len() - 1 {
        assert(t.drop_last() == s.drop_last());
    } else {
        assert(t.drop_last() == s.drop_last().update(i, v));
        lemma_glitches_update(s.drop_last(), i, v);
    }
}

/// The number of glitches is the number of entries that are the mark, the largest 32-bit integer.
pub proof fn glitch_count_is_the_number_of_marks(field: IterField, r: usize)
    requires
        call_ensures(IterField::glitch_count, (&field,), r),
    ensures
        r == field.iters@.filter(|v: u32| v == 0xffff_ffff).len(),
{
    lemma_marks(field.iters@);
}

/// Counting the glitches is counting the marks.
proof fn lemma_marks(s: Seq<u32>)
    ensures
        glitches(s) == s.filter(|v: u32| v == 0xffff_ffff).len(),
    decreases s.len(),
{
    reveal(Seq::filter);
    if s.len() > 0 {
        lemma_marks(s.drop_last());
    }
}

}
