//! What is done about the glitches of a deep rendering.
//!
//! Where more than a small share of the pixels are glitches, one of them becomes a new reference
//! point and all of them are computed again about it; when that has been done often enough, the
//! glitches that are left are iterated exactly, one by one. The high-precision work happens
//! outside: [`DeepRender::next_action`] says what is wanted, and the result is handed back.
use vstd::prelude::*;
use crate::complex::Complex;
use crate::convert::of_nat;
use crate::deep::{
    four,
    offset_outcome,
    pass,
    place_gives_column_and_row,
    series_fits,
    Pass,
    GLITCH_SHARE,
};
use crate::double::{num, Double};
use crate::field::{
    glitch_places,
    glitch_places_are_the_glitches,
    glitches,
    no_glitches_left,
    IterField,
    GLITCH_MARKER,
};
use crate::orbit::ReferenceOrbit;
use crate::series::SeriesApproximation;

verus! {

/// Whether the first `n` entries of a list name the pixel `i`.
pub open spec fn listed(list: Seq<usize>, n: int, i: int) -> bool {
    exists|k: int| 0 <= k < n && #[trigger] list[k] == i
}

/// Whether the column and the row of the pixel `i`, in an image `w` wide, have offsets.
pub open spec fn in_image(i: int, w: int, columns: int, rows: int) -> bool {
    i % w < columns && i / w < rows
}

/// What is recorded of a pixel after it may have been computed again: a new glitch changes
/// nothing.
pub open spec fn renewed(before: (u32, Double), again: bool, outcome: (u32, Double)) -> (u32, Double) {
    if again && outcome.0 != GLITCH_MARKER {
        outcome
    } else {
        before
    }
}

/// Whether a field `w` wide is another one with the listed pixels computed again.
pub open spec fn recomputed(
    before: IterField,
    after: IterField,
    list: Seq<usize>,
    p: Pass,
    w: int,
) -> bool {
    forall|i: int|
        0 <= i < before.iters@.len() ==> #[trigger] after.entry(i) == renewed(
            before.entry(i),
            listed(list, list.len() as int, i),
            p.outcome_at(i, w),
        )
}

/// Computes the listed pixels of an image `w` wide again, four at a time, and records those that
/// are no longer glitches.
pub fn rerender_glitches(
    orbit: &ReferenceOrbit,
    series: &Option<SeriesApproximation>,
    dre: &Vec<Double>,
    dim: &Vec<Double>,
    glitch_idx: &Vec<usize>,
    field: &mut IterField,
    w: usize,
    max_iter: u32,
)
    requires
        orbit.wf(),
        series_fits(*series),
        old(field).wf(),
        w > 0,
        forall|k: int|
            0 <= k < glitch_idx@.len() ==> (#[trigger] glitch_idx@[k]) < old(field).iters@.len()
                && in_image(
                glitch_idx@[k] as int,
                w as int,
                dre@.len() as int,
                dim@.len() as int,
            ),
    ensures
        final(field).wf(),
        final(field).iters@.len() == old(field).iters@.len(),
        forall|i: int|
            0 <= i < old(field).iters@.len() ==> #[trigger] final(field).entry(i) == renewed(
                old(field).entry(i),
                listed(glitch_idx@, glitch_idx@.len() as int, i),
                pass(*orbit, *series, dre@, dim@, max_iter).outcome_at(i, w as int),
            ),
        recomputed(
            *old(field),
            *final(field),
            glitch_idx@,
            pass(*orbit, *series, dre@, dim@, max_iter),
            w as int,
        ),
{
    let ghost p = pass(*orbit, *series, dre@, dim@, max_iter);
    let n: usize = glitch_idx.len();
    let mut k: usize = 0;
    while k < n
        invariant
            orbit.wf(),
            series_fits(*series),
            field.wf(),
            w > 0,
            p == pass(*orbit, *series, dre@, dim@, max_iter),
            k <= n,
            n == glitch_idx@.len(),
            field.iters@.len() == old(field).iters@.len(),
            forall|j: int|
                0 <= j < n ==> (#[trigger] glitch_idx@[j]) < field.iters@.len()
                    && in_image(
                    glitch_idx@[j] as int,
                    w as int,
                    dre@.len() as int,
                    dim@.len() as int,
                ),
            forall|i: int|
                0 <= i < field.iters@.len() ==> #[trigger] field.entry(i) == renewed(
                    old(field).entry(i),
                    listed(glitch_idx@, k as int, i),
                    p.outcome_at(i, w as int),
                ),
        decreases n - k,
    {
        let left: usize = n - k;
        let g: [usize; 4] = [
            glitch_idx[k],
            if left > 1 {
                glitch_idx[k + 1]
            } else {
                glitch_idx[k]
            },
            if left > 2 {
                glitch_idx[k + 2]
            } else {
                glitch_idx[k]
            },
            if left > 3 {
                glitch_idx[k + 3]
            } else {
                glitch_idx[k]
            },
        ];
        proof {
            assert forall|j: int| 0 <= j < 4 implies in_image(
                #[trigger] g@[j] as int,
                w as int,
                dre@.len() as int,
                dim@.len() as int,
            ) && g@[j] < field.iters@.len() && (j < left ==> g@[j] == glitch_idx@[k + j]) by {
                assert(glitch_idx@[k as int] < field.iters@.len());
                if j < left {
                    assert(glitch_idx@[k + j] < field.iters@.len());
                }
            }
            assert(in_image(g@[0] as int, w as int, dre@.len() as int, dim@.len() as int));
            assert(in_image(g@[1] as int, w as int, dre@.len() as int, dim@.len() as int));
            assert(in_image(g@[2] as int, w as int, dre@.len() as int, dim@.len() as int));
            assert(in_image(g@[3] as int, w as int, dre@.len() as int, dim@.len() as int));
        }
        let dr: [Double; 4] = [dre[g[0] % w], dre[g[1] % w], dre[g[2] % w], dre[g[3] % w]];
        let di: [Double; 4] = [dim[g[0] / w], dim[g[1] / w], dim[g[2] / w], dim[g[3] / w]];
        let (iters, mags): ([u32; 4], [Double; 4]) = four(orbit, series, dr, di, max_iter);
        let m: usize = if left < 4 {
            left
        } else {
            4
        };
        let ghost start = k;
        let mut j: usize = 0;
        while j < m
            invariant
                field.wf(),
                w > 0,
                p == pass(*orbit, *series, dre@, dim@, max_iter),
                j <= m <= 4,
                start + m <= n,
                n == glitch_idx@.len(),
                field.iters@.len() == old(field).iters@.len(),
                forall|l: int| 0 <= l < m ==> #[trigger] g@[l] == glitch_idx@[start + l],
                forall|l: int|
                    0 <= l < n ==> (#[trigger] glitch_idx@[l]) < field.iters@.len(),
                forall|l: int|
                    0 <= l < 4 ==> (#[trigger] iters@[l], mags@[l]) == p.outcome_at(
                        g@[l] as int,
                        w as int,
                    ),
                forall|i: int|
                    0 <= i < field.iters@.len() ==> #[trigger] field.entry(i) == renewed(
                        old(field).entry(i),
                        listed(glitch_idx@, start + j, i),
                        p.outcome_at(i, w as int),
                    ),
            decreases m - j,
        {
            let ghost before = *field;
            assert(g@[j as int] == glitch_idx@[start + j]);
            if iters[j] != GLITCH_MARKER {
                field.put(g[j], iters[j], mags[j]);
            }
            proof {
                assert forall|i: int| 0 <= i < field.iters@.len() implies #[trigger] field.entry(i)
                    == renewed(
                    old(field).entry(i),
                    listed(glitch_idx@, start + j + 1, i),
                    p.outcome_at(i, w as int),
                ) by {
                    assert(before.entry(i) == renewed(
                        old(field).entry(i),
                        listed(glitch_idx@, start + j, i),
                        p.outcome_at(i, w as int),
                    ));
                    assert((iters@[j as int], mags@[j as int]) == p.outcome_at(
                        g@[j as int] as int,
                        w as int,
                    ));
                    lemma_listed_next(glitch_idx@, start + j, i);
                }
            }
            j = j + 1;
        }
        k = k + m;
    }
}

/// One more entry names one more pixel.
proof fn lemma_listed_next(list: Seq<usize>, n: int, i: int)
    requires
        0 <= n < list.len(),
    ensures
        listed(list, n + 1, i) == (listed(list, n, i) || list[n] == i),
{
    if listed(list, n + 1, i) && list[n] != i {
        let k = choose|k: int| 0 <= k < n + 1 && #[trigger] list[k] == i;
        assert(0 <= k < n && list[k] == i);
    }
    if list[n] == i {
        assert(0 <= n < n + 1 && list[n] == i);
    }
}

/// What a deep rendering wants next.
#[derive(Clone, Copy, PartialEq, Eq, Structural, Debug)]
pub enum DeepAction {
    /// A pass about the pixel in this column and row as the new reference point.
    Rebase(usize, usize),
    /// The exact iteration of the pixel in this column and row.
    Exact(usize, usize),
    /// Nothing: the rendering is complete.
    Finished,
}

/// What a deep rendering has come to.
pub struct DeepModel {
    /// The escape count of each pixel.
    pub iters: Seq<u32>,
    /// The squared magnitude of each pixel.
    pub mag_sq: Seq<Double>,
    /// The image's width.
    pub w: int,
    /// The image's height.
    pub h: int,
    /// The number of glitches that no new reference point is sought for.
    pub tol_count: int,
    /// The largest number of reference points.
    pub max_refs: int,
    /// The number of reference points so far.
    pub refs_used: int,
    /// The number of pixels that the exact iteration has passed; none as long as new reference
    /// points are sought.
    pub settled: int,
}

/// The first glitch from `i` on; the end where there is none.
pub open spec fn next_glitch(iters: Seq<u32>, i: int) -> int
    decreases iters.len() - i,
{
    if i >= iters.len() {
        iters.len() as int
    } else if iters[i] == GLITCH_MARKER {
        i
    } else {
        next_glitch(iters, i + 1)
    }
}

impl DeepModel {
    /// What is recorded of a pixel.
    pub open spec fn entry(self, i: int) -> (u32, Double) {
        (self.iters[i], self.mag_sq[i])
    }

    /// Whether one more reference point is sought.
    pub open spec fn wants_reference(self) -> bool {
        self.settled == 0 && glitches(self.iters) > self.tol_count && self.refs_used
            < self.max_refs
    }

    /// The glitch that becomes the new reference point: the middle one.
    pub open spec fn middle_glitch(self) -> int {
        glitch_places(self.iters)[glitch_places(self.iters).len() as int / 2]
    }

    /// The glitch that is iterated exactly: the first one not passed yet.
    pub open spec fn first_glitch(self) -> int {
        next_glitch(self.iters, self.settled)
    }

    /// What is wanted next.
    pub open spec fn action(self) -> DeepAction {
        if self.wants_reference() {
            DeepAction::Rebase(
                (self.middle_glitch() % self.w) as usize,
                (self.middle_glitch() / self.w) as usize,
            )
        } else if self.first_glitch() < self.iters.len() {
            DeepAction::Exact(
                (self.first_glitch() % self.w) as usize,
                (self.first_glitch() / self.w) as usize,
            )
        } else {
            DeepAction::Finished
        }
    }

    /// The rendering after a pass about a new reference point: the glitches that are none any
    /// more are recorded anew.
    pub open spec fn rebased(self, p: Pass) -> DeepModel {
        DeepModel {
            iters: Seq::new(
                self.iters.len(),
                |i: int|
                    renewed(
                        self.entry(i),
                        self.iters[i] == GLITCH_MARKER,
                        p.outcome_at(i, self.w),
                    ).0,
            ),
            mag_sq: Seq::new(
                self.iters.len(),
                |i: int|
                    renewed(
                        self.entry(i),
                        self.iters[i] == GLITCH_MARKER,
                        p.outcome_at(i, self.w),
                    ).1,
            ),
            refs_used: self.refs_used + 1,
            ..self
        }
    }

    /// The rendering after the exact iteration of the first glitch not passed yet.
    pub open spec fn settled_with(self, result: (u32, Double)) -> DeepModel {
        DeepModel {
            iters: self.iters.update(self.first_glitch(), result.0),
            mag_sq: self.mag_sq.update(self.first_glitch(), result.1),
            settled: self.first_glitch() + 1,
            ..self
        }
    }
}

/// A deep rendering in progress.
pub struct DeepRender {
    /// The pixels so far.
    pub field: IterField,
    /// The image's width.
    pub w: usize,
    /// The image's height.
    pub h: usize,
    /// The number of glitches that no new reference point is sought for.
    pub tol_count: usize,
    /// The largest number of reference points.
    pub max_refs: usize,
    /// The number of reference points so far.
    pub refs_used: usize,
    /// The number of pixels that the exact iteration has passed.
    pub settled: usize,
}

/// The number of glitches in an image of `total` pixels that no new reference point is sought
/// for: 0.05 percent, rounded up.
pub open spec fn tolerated(total: nat) -> nat {
    of_nat(total).times(num(GLITCH_SHARE)).ceiled().saturated(usize::MAX as nat)
}

impl DeepRender {
    /// What the rendering has come to.
    pub open spec fn model(self) -> DeepModel {
        DeepModel {
            iters: self.field.iters@,
            mag_sq: self.field.mag_sq@,
            w: self.w as int,
            h: self.h as int,
            tol_count: self.tol_count as int,
            max_refs: self.max_refs as int,
            refs_used: self.refs_used as int,
            settled: self.settled as int,
        }
    }

    /// The invariant: an image of `h` rows of `w` pixels, and never more reference points than
    /// allowed, but for the first one.
    pub open spec fn wf(self) -> bool {
        &&& self.field.wf()
        &&& self.w > 0
        &&& self.field.iters@.len() == self.h * self.w
        &&& self.settled <= self.field.iters@.len()
        &&& self.refs_used == 1 || self.refs_used <= self.max_refs
    }

    /// Starts from the pixels of the main pass.
    pub fn new(field: IterField, w: usize, h: usize, max_refs: usize) -> (r: DeepRender)
        requires
            field.wf(),
            w > 0,
            field.iters@.len() == h * w,
        ensures
            r.wf(),
            r.field == field,
            r.w == w,
            r.h == h,
            r.max_refs == max_refs,
            r.tol_count == tolerated(h as nat * w as nat),
            r.refs_used == 1,
            r.settled == 0,
    {
        let total: usize = field.iters.len();
        let share: Double = Double::from_u64(total as u64).mul(Double::new(GLITCH_SHARE));
        let tol_count: usize = share.ceil().to_int(usize::MAX as u64) as usize;
        DeepRender { field, w, h, tol_count, max_refs, refs_used: 1, settled: 0 }
    }

    /// What is wanted next.
    pub fn next_action(&self) -> (r: DeepAction)
        requires
            self.wf(),
        ensures
            r == self.model().action(),
            r matches DeepAction::Rebase(x, y) ==> x < self.w && y < self.h && self.field.iters@[y
                * self.w + x] == GLITCH_MARKER,
            r matches DeepAction::Exact(x, y) ==> x < self.w && y < self.h && self.field.iters@[y
                * self.w + x] == GLITCH_MARKER,
    {
        let ghost m = self.model();
        let count: usize = self.field.glitch_count();
        if self.settled == 0 && count > self.tol_count && self.refs_used < self.max_refs {
            let list: Vec<usize> = self.field.glitch_indices();
            proof {
                glitch_places_are_the_glitches(self.field.iters@);
            }
            let pick: usize = list[list.len() / 2];
            proof {
                assert(glitch_places(self.field.iters@)[list@.len() as int / 2] == pick);
                lemma_place(pick as int, self.w as int, self.h as int);
            }
            return DeepAction::Rebase(pick % self.w, pick / self.w);
        }
        let i: usize = self.first_left();
        if i < self.field.iters.len() {
            proof {
                lemma_next_glitch(self.field.iters@, self.settled as int);
                lemma_place(i as int, self.w as int, self.h as int);
            }
            DeepAction::Exact(i % self.w, i / self.w)
        } else {
            DeepAction::Finished
        }
    }

    /// The first glitch that the exact iteration has not passed.
    fn first_left(&self) -> (r: usize)
        requires
            self.wf(),
        ensures
            r == self.model().first_glitch(),
            self.settled <= r <= self.field.iters@.len(),
    {
        let mut i: usize = self.settled;
        while i < self.field.iters.len() && self.field.iters[i] != GLITCH_MARKER
            invariant
                self.wf(),
                self.settled <= i <= self.field.iters@.len(),
                next_glitch(self.field.iters@, self.settled as int) == next_glitch(
                    self.field.iters@,
                    i as int,
                ),
            decreases self.field.iters@.len() - i,
        {
            i = i + 1;
        }
        i
    }

    /// Takes in a new reference point: computes all glitches again about it.
    pub fn rebase(
        &mut self,
        orbit: &ReferenceOrbit,
        series: &Option<SeriesApproximation>,
        dre: &Vec<Double>,
        dim: &Vec<Double>,
        max_iter: u32,
    )
        requires
            old(self).wf(),
            old(self).model().wants_reference(),
            orbit.wf(),
            series_fits(*series),
            dre@.len() == old(self).w,
            dim@.len() == old(self).h,
        ensures
            final(self).wf(),
            final(self).model() == old(self).model().rebased(
                pass(*orbit, *series, dre@, dim@, max_iter),
            ),
    {
        let ghost before = self.field;
        let ghost p = pass(*orbit, *series, dre@, dim@, max_iter);
        let list: Vec<usize> = self.field.glitch_indices();
        proof {
            glitch_places_are_the_glitches(before.iters@);
            assert forall|k: int| 0 <= k < list@.len() implies (#[trigger] list@[k])
                < before.iters@.len() && in_image(
                list@[k] as int,
                self.w as int,
                dre@.len() as int,
                dim@.len() as int,
            ) by {
                assert(list@[k] == glitch_places(before.iters@)[k]);
                lemma_place(list@[k] as int, self.w as int, self.h as int);
            }
        }
        rerender_glitches(orbit, series, dre, dim, &list, &mut self.field, self.w, max_iter);
        self.refs_used = self.refs_used + 1;
        proof {
            let m = old(self).model().rebased(p);
            assert forall|i: int| 0 <= i < before.iters@.len() implies self.field.iters@[i]
                == m.iters[i] && self.field.mag_sq@[i] == m.mag_sq[i] by {
                assert(listed(list@, list@.len() as int, i) == (before.iters@[i] == GLITCH_MARKER)) by {
                    if before.iters@[i] == GLITCH_MARKER {
                        let k = choose|k: int|
                            0 <= k < glitch_places(before.iters@).len() && glitch_places(
                                before.iters@,
                            )[k] == i;
                        assert(list@[k] == i);
                    }
                    if listed(list@, list@.len() as int, i) {
                        let k = choose|k: int| 0 <= k < list@.len() && #[trigger] list@[k] == i;
                        assert(glitch_places(before.iters@)[k] == i);
                    }
                }
                assert(self.field.entry(i) == renewed(
                    before.entry(i),
                    before.iters@[i] == GLITCH_MARKER,
                    p.outcome_at(i, self.w as int),
                ));
            }
            assert(self.field.iters@ =~= m.iters);
            assert(self.field.mag_sq@ =~= m.mag_sq);
        }
    }

    /// Takes in the result of the exact iteration that was wanted.
    pub fn settle(&mut self, iters: u32, mag_sq: Double)
        requires
            old(self).wf(),
            old(self).model().action() is Exact,
        ensures
            final(self).wf(),
            final(self).model() == old(self).model().settled_with((iters, mag_sq)),
    {
        let i: usize = self.first_left();
        let total: usize = self.field.iters.len();
        assert(i < total);
        self.field.put(i, iters, mag_sq);
        self.settled = i + 1;
    }

    /// The pixels.
    pub fn into_field(self) -> (r: IterField)
        ensures
            r == self.field,
    {
        self.field
    }
}

/// The column and the row of a pixel lie in the image, and give the pixel back.
pub proof fn lemma_place(i: int, w: int, h: int)
    requires
        w > 0,
        0 <= i < h * w,
    ensures
        0 <= i % w < w,
        0 <= i / w < h,
        (i / w) * w + i % w == i,
{
    vstd::arithmetic::div_mod::lemma_fundamental_div_mod(i, w);
    vstd::arithmetic::div_mod::lemma_mod_bound(i, w);
    let q = i / w;
    let r = i % w;
    assert(0 <= q < h && q * w + r == i) by (nonlinear_arith)
        requires
            i == w * q + r,
            0 <= r < w,
            0 <= i < h * w,
    ;
}

/// The glitch found is one, and none lies before it.
pub proof fn lemma_next_glitch(iters: Seq<u32>, i: int)
    requires
        0 <= i <= iters.len(),
    ensures
        i <= next_glitch(iters, i) <= iters.len(),
        next_glitch(iters, i) < iters.len() ==> iters[next_glitch(iters, i)] == GLITCH_MARKER,
        forall|k: int| i <= k < next_glitch(iters, i) ==> #[trigger] iters[k] != GLITCH_MARKER,
    decreases iters.len() - i,
{
    if i < iters.len() && iters[i] != GLITCH_MARKER {
        lemma_next_glitch(iters, i + 1);
    }
}

/// Where every glitch of one image is a glitch of another, it has no more of them.
pub proof fn fewer_glitches(s: Seq<u32>, t: Seq<u32>)
    requires
        s.len() == t.len(),
        forall|i: int|
            0 <= i < s.len() && #[trigger] t[i] == GLITCH_MARKER ==> s[i] == GLITCH_MARKER,
    ensures
        glitches(t) <= glitches(s),
    decreases s.len(),
{
    if s.len() > 0 {
        let s1 = s.drop_last();
        let t1 = t.drop_last();
        assert forall|i: int| 0 <= i < s1.len() && #[trigger] t1[i] == GLITCH_MARKER implies s1[i]
            == GLITCH_MARKER by {
            assert(t[i] == GLITCH_MARKER);
        }
        fewer_glitches(s1, t1);
        assert(t[t.len() - 1] == GLITCH_MARKER ==> s[s.len() - 1] == GLITCH_MARKER);
    }
}

/// A pass about a new reference point changes no pixel that is not a glitch, and makes no new
/// glitch.
pub proof fn rebase_changes_only_glitches(m: DeepModel, p: Pass)
    requires
        m.iters.len() == m.mag_sq.len(),
    ensures
        forall|i: int|
            0 <= i < m.iters.len() && m.iters[i] != GLITCH_MARKER ==> #[trigger] m.rebased(p).entry(
                i,
            ) == m.entry(i),
        glitches(m.rebased(p).iters) <= glitches(m.iters),
{
    fewer_glitches(m.iters, m.rebased(p).iters);
}

impl DeepModel {
    /// The rendering after the first `k` passes, as long as new reference points are sought.
    pub open spec fn after_passes(self, passes: Seq<Pass>, k: nat) -> DeepModel
        decreases k,
    {
        if k == 0 {
            self
        } else {
            let m = self.after_passes(passes, (k - 1) as nat);
            if m.wants_reference() {
                m.rebased(passes[k - 1])
            } else {
                m
            }
        }
    }

    /// The rendering after the exact iteration of all glitches, where `exact` gives the result of
    /// each pixel.
    pub open spec fn swept(self, exact: spec_fn(int) -> (u32, Double)) -> DeepModel
        decreases self.iters.len() - self.settled,
    {
        let i = self.first_glitch();
        if 0 <= self.settled <= i < self.iters.len() {
            self.settled_with(exact(i)).swept(exact)
        } else {
            self
        }
    }

    /// Whether what is recorded of a pixel comes from where it should: from the main pass, where
    /// that gave no glitch; else from one of the later passes or from the exact iteration, unless
    /// it is a glitch still.
    pub open spec fn accounts_for(
        self,
        main: DeepModel,
        passes: Seq<Pass>,
        exact: spec_fn(int) -> (u32, Double),
        i: int,
    ) -> bool {
        if main.iters[i] != GLITCH_MARKER {
            self.entry(i) == main.entry(i)
        } else {
            ||| self.iters[i] == GLITCH_MARKER
            ||| self.entry(i) == exact(i)
            ||| exists|k: int|
                0 <= k < passes.len() && self.entry(i) == #[trigger] passes[k].outcome_at(i, main.w)
        }
    }

    /// What stays as it was through all passes.
    pub open spec fn same_image(self, main: DeepModel) -> bool {
        &&& self.iters.len() == main.iters.len()
        &&& self.mag_sq.len() == main.mag_sq.len()
        &&& self.w == main.w
        &&& self.h == main.h
        &&& self.max_refs == main.max_refs
        &&& self.tol_count == main.tol_count
    }
}

/// What holds after the passes.
proof fn lemma_after_passes(
    main: DeepModel,
    passes: Seq<Pass>,
    exact: spec_fn(int) -> (u32, Double),
    k: nat,
)
    requires
        main.iters.len() == main.mag_sq.len(),
        main.settled == 0,
        main.refs_used == 1,
        k <= passes.len(),
    ensures
        ({
            let m = main.after_passes(passes, k);
            &&& m.same_image(main)
            &&& m.settled == 0
            &&& 1 <= m.refs_used
            &&& m.refs_used == 1 || m.refs_used <= main.max_refs
            &&& glitches(m.iters) <= glitches(main.iters)
            &&& forall|i: int|
                0 <= i < main.iters.len() ==> #[trigger] m.accounts_for(main, passes, exact, i)
        }),
    decreases k,
{
    if k > 0 {
        lemma_after_passes(main, passes, exact, (k - 1) as nat);
        let b = main.after_passes(passes, (k - 1) as nat);
        let m = main.after_passes(passes, k);
        if b.wants_reference() {
            let p = passes[k - 1];
            rebase_changes_only_glitches(b, p);
            assert forall|i: int| 0 <= i < main.iters.len() implies #[trigger] m.accounts_for(
                main,
                passes,
                exact,
                i,
            ) by {
                assert(b.accounts_for(main, passes, exact, i));
                assert(m.entry(i) == renewed(
                    b.entry(i),
                    b.iters[i] == GLITCH_MARKER,
                    p.outcome_at(i, main.w),
                ));
                assert(m.iters[i] == m.entry(i).0);
                assert(b.iters[i] == b.entry(i).0);
            }
        }
    }
}

/// What holds after the exact iteration.
proof fn lemma_swept(
    m: DeepModel,
    main: DeepModel,
    passes: Seq<Pass>,
    exact: spec_fn(int) -> (u32, Double),
)
    requires
        main.iters.len() == main.mag_sq.len(),
        m.same_image(main),
        0 <= m.settled <= m.iters.len(),
        forall|i: int|
            0 <= i < main.iters.len() ==> #[trigger] m.accounts_for(main, passes, exact, i),
        forall|i: int|
            0 <= i < main.iters.len() ==> (#[trigger] exact(i)).0 != GLITCH_MARKER,
        forall|i: int| 0 <= i < m.settled ==> #[trigger] m.iters[i] != GLITCH_MARKER,
    ensures
        m.swept(exact).same_image(main),
        forall|i: int|
            0 <= i < main.iters.len() ==> #[trigger] m.swept(exact).accounts_for(
                main,
                passes,
                exact,
                i,
            ),
        forall|i: int|
            0 <= i < main.iters.len() ==> #[trigger] m.swept(exact).iters[i] != GLITCH_MARKER,
    decreases m.iters.len() - m.settled,
{
    lemma_next_glitch(m.iters, m.settled);
    let g = m.first_glitch();
    if g < m.iters.len() {
        let n = m.settled_with(exact(g));
        assert(exact(g).0 != GLITCH_MARKER);
        assert forall|i: int| 0 <= i < n.settled implies #[trigger] n.iters[i] != GLITCH_MARKER by {
            if i < g {
                assert(m.iters[i] != GLITCH_MARKER);
            }
        }
        assert forall|i: int| 0 <= i < main.iters.len() implies #[trigger] n.accounts_for(
            main,
            passes,
            exact,
            i,
        ) by {
            assert(m.accounts_for(main, passes, exact, i));
            if i != g {
                assert(n.entry(i) == m.entry(i));
            } else {
                assert(m.iters[g] == m.entry(g).0);
                assert(main.iters[g] == main.entry(g).0);
            }
        }
        lemma_swept(n, main, passes, exact);
    }
}

/// A complete deep rendering leaves no glitch: every pixel is that of the main pass, where that
/// gave no glitch, and else that of one of the later passes or that of the exact iteration. The
/// main pass and the later ones together use at most `max_refs` reference points, or one.
pub proof fn complete_rendering_has_no_glitch(
    main: DeepModel,
    passes: Seq<Pass>,
    exact: spec_fn(int) -> (u32, Double),
)
    requires
        main.iters.len() == main.mag_sq.len(),
        main.settled == 0,
        main.refs_used == 1,
        forall|i: int|
            0 <= i < main.iters.len() ==> (#[trigger] exact(i)).0 != GLITCH_MARKER,
    ensures
        ({
            let m = main.after_passes(passes, passes.len());
            let done = m.swept(exact);
            &&& m.refs_used == 1 || m.refs_used <= main.max_refs
            &&& glitches(m.iters) <= glitches(main.iters)
            &&& glitches(done.iters) == 0
            &&& done.iters.len() == main.iters.len()
            &&& forall|i: int|
                0 <= i < main.iters.len() ==> #[trigger] done.accounts_for(main, passes, exact, i)
        }),
{
    lemma_after_passes(main, passes, exact, passes.len());
    let m = main.after_passes(passes, passes.len());
    lemma_swept(m, main, passes, exact);
    no_glitches_left(m.swept(exact).iters);
}

/// Once the exact iteration has begun, no new reference point is sought.
pub proof fn exact_iteration_comes_last(m: DeepModel, result: (u32, Double))
    requires
        0 <= m.settled <= m.iters.len(),
        m.action() is Exact,
    ensures
        !m.settled_with(result).wants_reference(),
        m.settled < m.settled_with(result).settled <= m.iters.len(),
{
    lemma_next_glitch(m.iters, m.settled);
}

/// A listed pixel that is computed again is iterated at its own offset: that of its column and of
/// its row in a picture `w` wide. It is recorded unless it is a glitch, and nothing else changes.
pub proof fn recomputed_pixel_goes_by_column_and_row(
    before: IterField,
    after: IterField,
    list: Seq<usize>,
    p: Pass,
    w: int,
    x: int,
    y: int,
)
    requires
        recomputed(before, after, list, p, w),
        0 <= x < w,
        0 <= y,
        y * w + x < before.iters@.len(),
    ensures
        ({
            let o = offset_outcome(
                p.orbit,
                p.series,
                Complex { re: p.dre[x], im: p.dim[y] },
                p.max_iter,
            );
            after.entry(y * w + x) == if o.0 != 0xffff_ffff && (exists|k: int|
                0 <= k < list.len() && #[trigger] list[k] == y * w + x) {
                o
            } else {
                before.entry(y * w + x)
            }
        }),
{
    place_gives_column_and_row(p, x, y, w);
    let i = y * w + x;
    assert(0 <= i) by (nonlinear_arith)
        requires
            i == y * w + x,
            0 <= y,
            0 <= x < w,
    ;
    assert(after.entry(i) == renewed(
        before.entry(i),
        listed(list, list.len() as int, i),
        p.outcome_at(i, w),
    ));
}

/// After a pass about a new reference point, a glitch in column `x` of row `y` is what comes of
/// the iteration at the offset of that column and that row, unless it is a glitch still.
pub proof fn repaired_pixel_goes_by_column_and_row(m: DeepModel, p: Pass, x: int, y: int)
    requires
        m.iters.len() == m.mag_sq.len(),
        0 <= x < m.w,
        0 <= y,
        y * m.w + x < m.iters.len(),
    ensures
        ({
            let i = y * m.w + x;
            let o = offset_outcome(
                p.orbit,
                p.series,
                Complex { re: p.dre[x], im: p.dim[y] },
                p.max_iter,
            );
            m.rebased(p).entry(i) == if m.iters[i] == 0xffff_ffff && o.0 != 0xffff_ffff {
                o
            } else {
                m.entry(i)
            }
        }),
        m.rebased(p).refs_used == m.refs_used + 1,
        m.rebased(p).same_image(m),
        m.rebased(p).settled == m.settled,
{
    place_gives_column_and_row(p, x, y, m.w);
    let (i, w) = (y * m.w + x, m.w);
    assert(0 <= i) by (nonlinear_arith)
        requires
            i == y * w + x,
            0 <= y,
            0 <= x < w,
    ;
}

/// A new reference point is asked for at a glitch that has as many glitches before it as behind
/// it, or one more; and only where there are more glitches than are tolerated and fewer reference
/// points than allowed.
pub proof fn new_reference_point_is_the_middle_glitch(m: DeepModel, x: usize, y: usize)
    requires
        m.w > 0,
        m.h * m.w == m.iters.len(),
        m.iters.len() <= usize::MAX,
        0 <= m.tol_count,
        m.action() == DeepAction::Rebase(x, y),
    ensures
        x < m.w,
        y * m.w + x < m.iters.len(),
        m.iters[y * m.w + x] == 0xffff_ffff,
        glitches(m.iters.take(y * m.w + x)) == glitches(m.iters) / 2,
        glitches(m.iters) > m.tol_count,
        m.refs_used < m.max_refs,
        m.settled == 0,
{
    glitch_places_are_the_glitches(m.iters);
    let places = glitch_places(m.iters);
    let k = places.len() as int / 2;
    let i = m.middle_glitch();
    assert(places[k] == i);
    lemma_place(i, m.w, m.h);
    lemma_fits(i, m.w, m.iters.len() as int);
    lemma_glitches_before(m.iters, k);
}

/// The column and the row of a pixel fit into machine integers.
proof fn lemma_fits(i: int, w: int, n: int)
    requires
        w > 0,
        0 <= i < n <= usize::MAX,
    ensures
        0 <= i % w <= usize::MAX,
        0 <= i / w <= usize::MAX,
{
    vstd::arithmetic::div_mod::lemma_fundamental_div_mod(i, w);
    vstd::arithmetic::div_mod::lemma_mod_bound(i, w);
    let (q, r) = (i / w, i % w);
    assert(0 <= q <= i && r <= i) by (nonlinear_arith)
        requires
            i == w * q + r,
            0 <= r < w,
            0 <= i,
    ;
}

/// Before the `k`-th of the glitches there are `k` of them.
proof fn lemma_glitches_before(s: Seq<u32>, k: int)
    requires
        0 <= k < glitch_places(s).len(),
    ensures
        0 <= glitch_places(s)[k] < s.len(),
        glitches(s.take(glitch_places(s)[k])) == k,
    decreases s.len(),
{
    let t = s.drop_last();
    glitch_places_are_the_glitches(s);
    glitch_places_are_the_glitches(t);
    let i = glitch_places(s)[k];
    if k < glitch_places(t).len() {
        lemma_glitches_before(t, k);
        assert(t.take(i) =~= s.take(i));
    } else {
        assert(s.take(i) =~= t);
    }
}

/// The exact iteration is asked for at the first glitch that it has not passed, once no new
/// reference point is sought; and its result is recorded there, and nowhere else.
pub proof fn exact_iteration_takes_the_first_glitch(
    m: DeepModel,
    x: usize,
    y: usize,
    result: (u32, Double),
)
    requires
        m.w > 0,
        m.h * m.w == m.iters.len(),
        m.iters.len() == m.mag_sq.len(),
        m.iters.len() <= usize::MAX,
        0 <= m.settled,
        m.action() == DeepAction::Exact(x, y),
    ensures
        ({
            let i = y * m.w + x;
            let n = m.settled_with(result);
            &&& x < m.w
            &&& m.settled <= i < m.iters.len()
            &&& m.iters[i] == 0xffff_ffff
            &&& forall|k: int| m.settled <= k < i ==> #[trigger] m.iters[k] != 0xffff_ffff
            &&& n.entry(i) == result
            &&& forall|k: int|
                0 <= k < m.iters.len() && k != i ==> #[trigger] n.entry(k) == m.entry(k)
            &&& n.settled == i + 1
        }),
        m.settled > 0 || glitches(m.iters) <= m.tol_count || m.refs_used >= m.max_refs,
{
    let i = m.first_glitch();
    lemma_next_glitch(m.iters, m.settled);
    lemma_place(i, m.w, m.h);
    lemma_fits(i, m.w, m.iters.len() as int);
}

/// The rendering is complete only where no glitch is left from the place on that the exact
/// iteration has reached.
pub proof fn finished_rendering_has_no_glitch_left(m: DeepModel)
    requires
        0 <= m.settled <= m.iters.len(),
        m.action() is Finished,
    ensures
        forall|k: int|
            m.settled <= k < m.iters.len() ==> #[trigger] m.iters[k] != 0xffff_ffff,
{
    lemma_next_glitch(m.iters, m.settled);
}

}
