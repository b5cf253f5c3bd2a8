//! Bounded, four-connected flood fill.

use vstd::prelude::*;
use crate::colors::RGB;
use crate::image::PPMImg;

verus! {

/// Why a fill was abandoned.
#[derive(Clone, Copy, Debug, PartialEq, Eq, Structural)]
pub enum FillError {
    /// More coordinates were waiting than the canvas has pixels, or the
    /// fill went on beyond its limit of steps.
    Runaway,
}

/// A pixel of colour `c` takes the colour `target`: it is neither part of
/// the boundary nor already of that colour.
pub open spec fn fillable(c: RGB, target: RGB, bound: RGB) -> bool {
    c != bound && c != target
}

/// How many of the first `n` pixels are fillable.
pub open spec fn fillable_count(pixels: Seq<RGB>, fill: Seq<RGB>, bound: RGB, n: nat) -> nat
    decreases n,
{
    if n == 0 {
        0
    } else {
        let rest = fillable_count(pixels, fill, bound, (n - 1) as nat);
        if fillable(pixels[n - 1], fill[n - 1], bound) {
            rest + 1
        } else {
            rest
        }
    }
}

/// Painting a fillable pixel leaves one fillable pixel fewer.
pub proof fn lemma_paint_count(pixels: Seq<RGB>, fill: Seq<RGB>, bound: RGB, n: nat, i: int)
    requires
        pixels.len() == fill.len(),
        n <= pixels.len(),
        0 <= i < pixels.len(),
        fillable(pixels[i], fill[i], bound),
    ensures
        fillable_count(pixels.update(i, fill[i]), fill, bound, n) + (if i < n { 1nat } else { 0nat })
            == fillable_count(pixels, fill, bound, n),
    decreases n,
{
    if n > 0 {
        lemma_paint_count(pixels, fill, bound, (n - 1) as nat, i);
    }
}

/// The waiting coordinates after the four neighbours of `(x, y)` joined
/// them: right, below, left, above, so that the one above leaves first.
pub open spec fn with_neighbours(pending: Seq<(int, int)>, x: int, y: int) -> Seq<(int, int)> {
    pending.push((x + 1, y)).push((x, y + 1)).push((x - 1, y)).push((x, y - 1))
}

/// The coordinates on the work stack as integers.
pub open spec fn coords(points: Seq<(i128, i128)>) -> Seq<(int, int)> {
    Seq::new(points.len(), |k: int| (points[k].0 as int, points[k].1 as int))
}

/// The coordinates on the work stack as integers.
pub open spec fn wide(points: Seq<(i64, i64)>) -> Seq<(int, int)> {
    Seq::new(points.len(), |k: int| (points[k].0 as int, points[k].1 as int))
}

/// The number of steps after which a fill by a function is abandoned.
pub const FILL_STEPS: u64 = 0x4000_0000_0000_0000;

/// `fill` may return the colour `c` at `(x, y)`.
pub open spec fn gives<F: Fn(i64, i64) -> RGB>(fill: F, x: int, y: int, c: RGB) -> bool {
    i64::MIN <= x <= i64::MAX && i64::MIN <= y <= i64::MAX && fill.ensures(
        (x as i64, y as i64),
        c,
    )
}

/// `full` starts with the colours of `asked`.
pub open spec fn starts_with(full: Seq<RGB>, asked: Seq<RGB>) -> bool {
    asked.len() <= full.len() && forall|k: int| 0 <= k < asked.len() ==> full[k] == asked[k]
}

/// No more pixels are fillable than there are pixels.
pub proof fn lemma_count_bound(pixels: Seq<RGB>, fill: Seq<RGB>, bound: RGB, n: nat)
    ensures
        fillable_count(pixels, fill, bound, n) <= n,
    decreases n,
{
    if n > 0 {
        lemma_count_bound(pixels, fill, bound, (n - 1) as nat);
    }
}

impl PPMImg {
    /// One step of the fill on this canvas's grid: the last waiting
    /// coordinate leaves; if it addresses a fillable pixel, the pixel is
    /// painted and its neighbours join those waiting.
    pub open spec fn fill_step(
        &self,
        pixels: Seq<RGB>,
        pending: Seq<(int, int)>,
        fill: Seq<RGB>,
        bound: RGB,
    ) -> (Seq<RGB>, Seq<(int, int)>) {
        let (x, y) = pending.last();
        let rest = pending.drop_last();
        match self.pixel_index(x, y) {
            Some(i) if fillable(pixels[i], fill[i], bound) => (
                pixels.update(i, fill[i]),
                with_neighbours(rest, x, y),
            ),
            _ => (pixels, rest),
        }
    }

    /// The pixels that the fill leaves, and whether it ran to its end: it
    /// is abandoned after the first step that leaves more coordinates
    /// waiting than the canvas has pixels.
    pub open spec fn fill_run(
        &self,
        pixels: Seq<RGB>,
        pending: Seq<(int, int)>,
        fill: Seq<RGB>,
        bound: RGB,
    ) -> (Seq<RGB>, bool)
        decreases fillable_count(pixels, fill, bound, pixels.len()), pending.len(),
        when self.data@.len() == self.width * self.height && pixels.len() == self.data@.len()
            && fill.len() == pixels.len()
        via Self::fill_run_decreases
    {
        if pending.len() == 0 {
            (pixels, true)
        } else {
            let (pixels2, pending2) = self.fill_step(pixels, pending, fill, bound);
            if pending2.len() > pixels2.len() {
                (pixels2, false)
            } else {
                self.fill_run(pixels2, pending2, fill, bound)
            }
        }
    }

    #[via_fn]
    proof fn fill_run_decreases(
        &self,
        pixels: Seq<RGB>,
        pending: Seq<(int, int)>,
        fill: Seq<RGB>,
        bound: RGB,
    ) {
        if pending.len() != 0 {
            let (x, y) = pending.last();
            self.lemma_pixel_index_in_range(x, y);
            if let Some(i) = self.pixel_index(x, y) {
                if fillable(pixels[i], fill[i], bound) {
                    lemma_paint_count(pixels, fill, bound, pixels.len(), i);
                }
            }
        }
    }

    /// Flood fill from `(x, y)` over four-connected pixels, with the fill
    /// colours given pixel by pixel.
    ///
    /// `fill` gives, for each buffer position, the colour that the fill
    /// paints there. Coordinates wait on a stack that starts with the
    /// seed. The one on top leaves; if it addresses a pixel that is neither
    /// of the colour `bound` nor already of its fill colour, the pixel is
    /// painted and its four neighbours are stacked. The fill ends when
    /// nothing waits. It is abandoned with `FillError::Runaway`, the pixels
    /// painted so far staying painted, as soon as a step leaves more
    /// coordinates waiting than the canvas has pixels.
    pub fn bound4_fill(&mut self, x: i32, y: i32, fill: &Vec<RGB>, bound: RGB) -> (r:
        Result<(), FillError>)
        requires
            old(self).wf(),
            fill@.len() == old(self).data@.len(),
        ensures
            final(self).same_frame(old(self)),
            (final(self).data@, r is Ok) == old(self).fill_run(
                old(self).data@,
                seq![(x as int, y as int)],
                fill@,
                bound,
            ),
            forall|i: int|
                0 <= i < old(self).data@.len() ==> #[trigger] final(self).data@[i] == old(self).data@[i]
                    || (fillable(old(self).data@[i], fill@[i], bound)
                        && final(self).data@[i] == fill@[i]),
    {
        let limit = self.data.len();
        let ghost start = fillable_count(self.data@, fill@, bound, self.data@.len());
        proof {
            lemma_count_bound(self.data@, fill@, bound, self.data@.len());
        }
        let mut points: Vec<(i128, i128)> = Vec::new();
        points.push((x as i128, y as i128));
        assert(coords(points@) =~= seq![(x as int, y as int)]);
        while points.len() > 0
            invariant
                self.wf(),
                self.same_frame(old(self)),
                limit == self.data@.len(),
                fill@.len() == self.data@.len(),
                start <= limit,
                fillable_count(self.data@, fill@, bound, self.data@.len()) <= start,
                forall|k: int|
                    0 <= k < points@.len() ==> {
                        let reach = 0x8000_0000 + start - fillable_count(
                            self.data@,
                            fill@,
                            bound,
                            self.data@.len(),
                        );
                        &&& -reach <= (#[trigger] points@[k]).0 <= reach
                        &&& -reach <= points@[k].1 <= reach
                    },
                old(self).fill_run(old(self).data@, seq![(x as int, y as int)], fill@, bound)
                    == old(self).fill_run(self.data@, coords(points@), fill@, bound),
                forall|i: int|
                    0 <= i < limit ==> #[trigger] self.data@[i] == old(self).data@[i] || (fillable(
                        old(self).data@[i],
                        fill@[i],
                        bound,
                    ) && self.data@[i] == fill@[i]),
            decreases fillable_count(self.data@, fill@, bound, self.data@.len()), points.len(),
        {
            let ghost before = self.data@;
            let ghost waiting = points@;
            let (px, py) = points.pop().unwrap();
            assert(coords(points@) =~= coords(waiting).drop_last());
            assert(coords(waiting).last() == (px as int, py as int));
            if let Some(i) = self.locate(px, py) {
                let color = self.data[i];
                let target = fill[i];
                if color != bound && color != target {
                    proof {
                        lemma_paint_count(before, fill@, bound, before.len(), i as int);
                    }
                    self.data.set(i, target);
                    let ghost rest = points@;
                    points.push((px + 1, py));
                    points.push((px, py + 1));
                    points.push((px - 1, py));
                    points.push((px, py - 1));
                    assert(coords(points@) =~= with_neighbours(
                        coords(rest),
                        px as int,
                        py as int,
                    ));
                }
            }
            proof {
                let step = old(self).fill_step(before, coords(waiting), fill@, bound);
                assert(self.data@ == step.0);
                assert(coords(points@) == step.1);
            }
            if points.len() > limit {
                return Err(FillError::Runaway);
            }
        }
        assert(coords(points@) =~= Seq::empty());
        Ok(())
    }

    /// The step asks for a colour: a coordinate waits, and the last one
    /// addresses a pixel that is not of the colour `bound`.
    pub open spec fn step_asks(&self, pixels: Seq<RGB>, pending: Seq<(int, int)>, bound: RGB) -> bool {
        pending.len() > 0 && match self.pixel_index(pending.last().0, pending.last().1) {
            Some(i) => pixels[i] != bound,
            None => false,
        }
    }

    /// One step of the fill where `answer` is the colour given at the last
    /// waiting coordinate: that coordinate leaves; if it addresses a pixel
    /// that is neither of the colour `bound` nor of the colour `answer`, the
    /// pixel takes that colour and the four neighbours of the coordinate
    /// join those waiting.
    pub open spec fn fill_fn_step(
        &self,
        pixels: Seq<RGB>,
        pending: Seq<(int, int)>,
        answer: RGB,
        bound: RGB,
    ) -> (Seq<RGB>, Seq<(int, int)>) {
        let (x, y) = pending.last();
        let rest = pending.drop_last();
        match self.pixel_index(x, y) {
            Some(i) if pixels[i] != bound && pixels[i] != answer => (
                pixels.update(i, answer),
                with_neighbours(rest, x, y),
            ),
            _ => (pixels, rest),
        }
    }

    /// The pixels that the fill leaves, and whether it ran to its end,
    /// where `answers` holds the colour given in each step from step `at`
    /// on (an entry counts only where its step asks). The fill is abandoned
    /// after the first step that leaves more coordinates waiting than the
    /// canvas has pixels, and when coordinates still wait after `steps`
    /// steps.
    pub open spec fn fill_fn_run(
        &self,
        pixels: Seq<RGB>,
        pending: Seq<(int, int)>,
        answers: Seq<RGB>,
        at: int,
        bound: RGB,
        steps: nat,
    ) -> (Seq<RGB>, bool)
        decreases steps,
    {
        if pending.len() == 0 {
            (pixels, true)
        } else if steps == 0 {
            (pixels, false)
        } else {
            let next = self.fill_fn_step(pixels, pending, answers[at], bound);
            if next.1.len() > next.0.len() {
                (next.0, false)
            } else {
                self.fill_fn_run(next.0, next.1, answers, at + 1, bound, (steps - 1) as nat)
            }
        }
    }

    /// `answers` holds what `fill` returned along the fill: an entry for
    /// each step, and in each step that asks, a colour that `fill` returns
    /// at the coordinate that leaves.
    pub open spec fn fill_fn_answers<F: Fn(i64, i64) -> RGB>(
        &self,
        pixels: Seq<RGB>,
        pending: Seq<(int, int)>,
        fill: F,
        answers: Seq<RGB>,
        at: int,
        bound: RGB,
        steps: nat,
    ) -> bool
        decreases steps,
    {
        if pending.len() == 0 || steps == 0 {
            true
        } else {
            let (x, y) = pending.last();
            let next = self.fill_fn_step(pixels, pending, answers[at], bound);
            &&& 0 <= at < answers.len()
            &&& self.step_asks(pixels, pending, bound) ==> gives(fill, x, y, answers[at])
            &&& next.1.len() <= next.0.len() ==> self.fill_fn_answers(
                next.0,
                next.1,
                fill,
                answers,
                at + 1,
                bound,
                (steps - 1) as nat,
            )
        }
    }

    /// Flood fill from `(x, y)` over four-connected pixels, with the fill
    /// colours given by a function of the coordinates.
    ///
    /// Coordinates wait on a stack that starts with the seed. The one on
    /// top leaves. If it addresses a pixel that is not of the colour
    /// `bound`, `fill` is asked for the colour at that coordinate; unless
    /// the pixel has that colour already, it is painted and the four
    /// neighbours of the coordinate are stacked. The fill ends when nothing
    /// waits. It is abandoned with `FillError::Runaway`, the pixels painted
    /// so far staying painted, as soon as a step leaves more coordinates
    /// waiting than the canvas has pixels, and when it has not ended after
    /// `FILL_STEPS` steps.
    pub fn bound4_fill_with_fn<F: Fn(i64, i64) -> RGB>(
        &mut self,
        x: i32,
        y: i32,
        fill: F,
        bound: RGB,
    ) -> (r: Result<(), FillError>)
        requires
            old(self).wf(),
            forall|px: i64, py: i64|
                old(self).asks(bound, px as int, py as int) ==> #[trigger] fill.requires((px, py)),
        ensures
            final(self).same_frame(old(self)),
            exists|answers: Seq<RGB>|
                {
                    &&& #[trigger] old(self).fill_fn_answers(
                        old(self).data@,
                        seq![(x as int, y as int)],
                        fill,
                        answers,
                        0,
                        bound,
                        FILL_STEPS as nat,
                    )
                    &&& (final(self).data@, r is Ok) == old(self).fill_fn_run(
                        old(self).data@,
                        seq![(x as int, y as int)],
                        answers,
                        0,
                        bound,
                        FILL_STEPS as nat,
                    )
                },
            forall|i: int|
                0 <= i < old(self).data@.len() && old(self).data@[i] == bound
                    ==> #[trigger] final(self).data@[i] == bound,
    {
        let limit = self.data.len();
        let ghost seed = seq![(x as int, y as int)];
        let ghost all = FILL_STEPS as nat;
        let ghost asked: Seq<RGB> = Seq::empty();
        let mut points: Vec<(i64, i64)> = Vec::new();
        points.push((x as i64, y as i64));
        let mut left: u64 = FILL_STEPS;
        assert(wide(points@) =~= seed);
        while points.len() > 0 && left > 0
            invariant
                self.wf(),
                self.same_frame(old(self)),
                limit == self.data@.len(),
                left <= FILL_STEPS,
                all == FILL_STEPS,
                seed == seq![(x as int, y as int)],
                asked.len() == FILL_STEPS - left,
                forall|px: i64, py: i64|
                    old(self).asks(bound, px as int, py as int) ==> #[trigger] fill.requires(
                        (px, py),
                    ),
                forall|k: int|
                    0 <= k < points@.len() ==> {
                        let reach = 0x8000_0000 + FILL_STEPS - left;
                        &&& -reach <= (#[trigger] points@[k]).0 <= reach
                        &&& -reach <= points@[k].1 <= reach
                    },
                forall|full: Seq<RGB>| #[trigger]
                    starts_with(full, asked) ==> {
                        &&& old(self).fill_fn_run(old(self).data@, seed, full, 0, bound, all)
                            == old(self).fill_fn_run(
                            self.data@,
                            wide(points@),
                            full,
                            asked.len() as int,
                            bound,
                            left as nat,
                        )
                        &&& old(self).fill_fn_answers(
                            self.data@,
                            wide(points@),
                            fill,
                            full,
                            asked.len() as int,
                            bound,
                            left as nat,
                        ) ==> old(self).fill_fn_answers(
                            old(self).data@,
                            seed,
                            fill,
                            full,
                            0,
                            bound,
                            all,
                        )
                    },
                forall|i: int|
                    0 <= i < limit && old(self).data@[i] == bound ==> #[trigger] self.data@[i]
                        == bound,
            decreases left,
        {
            let ghost before = self.data@;
            let ghost waiting = points@;
            let ghost earlier = asked;
            let ghost answer = bound;
            let (px, py) = points.pop().unwrap();
            left = left - 1;
            assert(wide(points@) =~= wide(waiting).drop_last());
            assert(wide(waiting).last() == (px as int, py as int));
            if let Some(i) = self.locate(px as i128, py as i128) {
                let color = self.data[i];
                if color != bound {
                    assert(old(self).asks(bound, px as int, py as int));
                    let target = fill(px, py);
                    proof {
                        answer = target;
                        assert(gives(fill, px as int, py as int, target));
                    }
                    if color != target {
                        self.data.set(i, target);
                        let ghost rest = points@;
                        points.push((px + 1, py));
                        points.push((px, py + 1));
                        points.push((px - 1, py));
                        points.push((px, py - 1));
                        assert(wide(points@) =~= with_neighbours(
                            wide(rest),
                            px as int,
                            py as int,
                        ));
                    }
                }
            }
            proof {
                asked = earlier.push(answer);
                let step = old(self).fill_fn_step(before, wide(waiting), answer, bound);
                assert(self.data@ == step.0);
                assert(wide(points@) == step.1);
                assert forall|full: Seq<RGB>| #[trigger] starts_with(full, asked) implies {
                    &&& starts_with(full, earlier)
                    &&& full[earlier.len() as int] == answer
                    &&& 0 <= earlier.len() < full.len()
                } by {
                    assert(asked[earlier.len() as int] == answer);
                    assert forall|k: int| 0 <= k < earlier.len() implies full[k] == earlier[k] by {
                        assert(asked[k] == earlier[k]);
                    }
                }
            }
            if points.len() > limit {
                proof {
                    assert(starts_with(asked, asked));
                    assert(old(self).fill_fn_answers(
                        old(self).data@,
                        seed,
                        fill,
                        asked,
                        0,
                        bound,
                        all,
                    ));
                }
                return Err(FillError::Runaway);
            }
        }
        proof {
            assert(starts_with(asked, asked));
            if points.len() == 0 {
                assert(wide(points@) =~= Seq::empty());
            }
            assert(old(self).fill_fn_answers(old(self).data@, seed, fill, asked, 0, bound, all));
        }
        if points.len() > 0 {
            Err(FillError::Runaway)
        } else {
            Ok(())
        }
    }

    /// `(x, y)` addresses a pixel that is not of the colour `bound`: the
    /// fill may ask for the colour there.
    pub open spec fn asks(&self, bound: RGB, x: int, y: int) -> bool {
        match self.pixel_index(x, y) {
            Some(i) => self.data@[i] != bound,
            None => false,
        }
    }
}

impl PPMImg {
    /// `(x, y)` addresses no pixel, or one that the fill would pass over.
    pub open spec fn settled_at(
        &self,
        pixels: Seq<RGB>,
        fill: Seq<RGB>,
        bound: RGB,
        x: int,
        y: int,
    ) -> bool {
        match self.pixel_index(x, y) {
            Some(i) => !fillable(pixels[i], fill[i], bound),
            None => true,
        }
    }

    /// `(x, y)` addresses a pixel whose colour differs between `before`
    /// and `after`.
    pub open spec fn painted_at(&self, before: Seq<RGB>, after: Seq<RGB>, x: int, y: int) -> bool {
        match self.pixel_index(x, y) {
            Some(i) => after[i] != before[i],
            None => false,
        }
    }

    /// Each pixel of `after` is as in `before`, or was fillable there and
    /// has its fill colour.
    pub open spec fn only_painted(before: Seq<RGB>, after: Seq<RGB>, fill: Seq<RGB>, bound: RGB)
        -> bool {
        &&& after.len() == before.len()
        &&& forall|i: int|
            0 <= i < before.len() ==> #[trigger] after[i] == before[i] || (fillable(
                before[i],
                fill[i],
                bound,
            ) && after[i] == fill[i])
    }

    /// Some waiting coordinate addresses the pixel of `(x, y)`.
    pub open spec fn awaited(&self, pending: Seq<(int, int)>, x: int, y: int) -> bool {
        exists|k: int|
            0 <= k < pending.len() && self.pixel_index((#[trigger] pending[k]).0, pending[k].1)
                == self.pixel_index(x, y)
    }

    /// `(x, y)` is settled or awaited.
    pub open spec fn handled(
        &self,
        pixels: Seq<RGB>,
        pending: Seq<(int, int)>,
        fill: Seq<RGB>,
        bound: RGB,
        x: int,
        y: int,
    ) -> bool {
        self.settled_at(pixels, fill, bound, x, y) || self.awaited(pending, x, y)
    }

    /// The four neighbours of every painted coordinate are handled.
    pub open spec fn closed_under(
        &self,
        before: Seq<RGB>,
        pixels: Seq<RGB>,
        pending: Seq<(int, int)>,
        fill: Seq<RGB>,
        bound: RGB,
    ) -> bool {
        forall|x: int, y: int| #[trigger]
            self.painted_at(before, pixels, x, y) ==> {
                &&& self.handled(pixels, pending, fill, bound, x + 1, y)
                &&& self.handled(pixels, pending, fill, bound, x, y + 1)
                &&& self.handled(pixels, pending, fill, bound, x - 1, y)
                &&& self.handled(pixels, pending, fill, bound, x, y - 1)
            }
    }

    /// A handled coordinate stays handled over one step of the fill.
    proof fn lemma_step_keeps_handled(
        &self,
        pixels: Seq<RGB>,
        pending: Seq<(int, int)>,
        fill: Seq<RGB>,
        bound: RGB,
        x: int,
        y: int,
    )
        requires
            self.wf(),
            pixels.len() == self.data@.len(),
            fill.len() == pixels.len(),
            pending.len() > 0,
            self.handled(pixels, pending, fill, bound, x, y),
        ensures
            ({
                let next = self.fill_step(pixels, pending, fill, bound);
                self.handled(next.0, next.1, fill, bound, x, y)
            }),
    {
        let next = self.fill_step(pixels, pending, fill, bound);
        let (px, py) = pending.last();
        self.lemma_pixel_index_in_range(px, py);
        self.lemma_pixel_index_in_range(x, y);
        if !self.settled_at(pixels, fill, bound, x, y) {
            let k = choose|k: int|
                0 <= k < pending.len() && self.pixel_index((#[trigger] pending[k]).0, pending[k].1)
                    == self.pixel_index(x, y);
            if k < pending.len() - 1 {
                assert(next.1[k] == pending[k]);
                assert(self.awaited(next.1, x, y));
            } else {
                assert(self.settled_at(next.0, fill, bound, x, y));
            }
        } else {
            assert(self.settled_at(next.0, fill, bound, x, y));
        }
    }

    /// One step of the fill keeps the neighbours of painted coordinates
    /// handled.
    proof fn lemma_step_keeps_closed(
        &self,
        before: Seq<RGB>,
        pixels: Seq<RGB>,
        pending: Seq<(int, int)>,
        fill: Seq<RGB>,
        bound: RGB,
    )
        requires
            self.wf(),
            pixels.len() == self.data@.len(),
            fill.len() == pixels.len(),
            pending.len() > 0,
            Self::only_painted(before, pixels, fill, bound),
            self.closed_under(before, pixels, pending, fill, bound),
        ensures
            ({
                let next = self.fill_step(pixels, pending, fill, bound);
                &&& Self::only_painted(before, next.0, fill, bound)
                &&& self.closed_under(before, next.0, next.1, fill, bound)
            }),
    {
        let next = self.fill_step(pixels, pending, fill, bound);
        let (px, py) = pending.last();
        let rest = pending.drop_last();
        self.lemma_pixel_index_in_range(px, py);
        assert forall|x: int, y: int| #[trigger]
            self.painted_at(before, next.0, x, y) implies {
            &&& self.handled(next.0, next.1, fill, bound, x + 1, y)
            &&& self.handled(next.0, next.1, fill, bound, x, y + 1)
            &&& self.handled(next.0, next.1, fill, bound, x - 1, y)
            &&& self.handled(next.0, next.1, fill, bound, x, y - 1)
        } by {
            self.lemma_pixel_index_in_range(x, y);
            if self.painted_at(before, pixels, x, y) {
                self.lemma_step_keeps_handled(pixels, pending, fill, bound, x + 1, y);
                self.lemma_step_keeps_handled(pixels, pending, fill, bound, x, y + 1);
                self.lemma_step_keeps_handled(pixels, pending, fill, bound, x - 1, y);
                self.lemma_step_keeps_handled(pixels, pending, fill, bound, x, y - 1);
            } else {
                // (x, y) addresses the pixel that this step painted.
                assert(self.pixel_index(x, y) == self.pixel_index(px, py));
                let n = rest.len() as int;
                assert(next.1 == with_neighbours(rest, px, py));
                self.lemma_same_pixel_shift(x, y, px, py, 1, 0);
                self.lemma_same_pixel_shift(x, y, px, py, 0, 1);
                self.lemma_same_pixel_shift(x, y, px, py, -1, 0);
                self.lemma_same_pixel_shift(x, y, px, py, 0, -1);
                assert(next.1[n] == (px + 1, py));
                assert(next.1[n + 1] == (px, py + 1));
                assert(next.1[n + 2] == (px - 1, py));
                assert(next.1[n + 3] == (px, py - 1));
                assert(self.awaited(next.1, x + 1, y));
                assert(self.awaited(next.1, x, y + 1));
                assert(self.awaited(next.1, x - 1, y));
                assert(self.awaited(next.1, x, y - 1));
            }
        }
    }

    /// A fill that runs to its end leaves handled coordinates settled and
    /// the neighbours of painted coordinates settled.
    proof fn lemma_run_closed(
        &self,
        before: Seq<RGB>,
        pixels: Seq<RGB>,
        pending: Seq<(int, int)>,
        fill: Seq<RGB>,
        bound: RGB,
        x: int,
        y: int,
    )
        requires
            self.wf(),
            pixels.len() == self.data@.len(),
            fill.len() == pixels.len(),
            Self::only_painted(before, pixels, fill, bound),
            self.closed_under(before, pixels, pending, fill, bound),
            self.handled(pixels, pending, fill, bound, x, y),
        ensures
            ({
                let out = self.fill_run(pixels, pending, fill, bound);
                out.1 ==> {
                    &&& Self::only_painted(before, out.0, fill, bound)
                    &&& self.closed_under(before, out.0, Seq::empty(), fill, bound)
                    &&& self.settled_at(out.0, fill, bound, x, y)
                }
            }),
        decreases fillable_count(pixels, fill, bound, pixels.len()), pending.len(),
    {
        if pending.len() == 0 {
            assert(pending =~= Seq::empty());
        } else {
            let next = self.fill_step(pixels, pending, fill, bound);
            let (px, py) = pending.last();
            self.lemma_pixel_index_in_range(px, py);
            self.lemma_step_keeps_closed(before, pixels, pending, fill, bound);
            self.lemma_step_keeps_handled(pixels, pending, fill, bound, x, y);
            if next.1.len() <= next.0.len() {
                if let Some(i) = self.pixel_index(px, py) {
                    if fillable(pixels[i], fill[i], bound) {
                        lemma_paint_count(pixels, fill, bound, pixels.len(), i);
                    }
                }
                self.lemma_run_closed(before, next.0, next.1, fill, bound, x, y);
            }
        }
    }

    /// A fill that runs to its end has painted all that it could reach:
    /// afterwards the seed, and every neighbour of every coordinate whose
    /// pixel it painted, addresses no pixel, a pixel of the boundary
    /// colour, or a pixel of its fill colour.
    pub proof fn lemma_fill_reaches_all(&self, x: int, y: int, fill: Seq<RGB>, bound: RGB)
        requires
            self.wf(),
            fill.len() == self.data@.len(),
        ensures
            ({
                let out = self.fill_run(self.data@, seq![(x, y)], fill, bound);
                out.1 ==> {
                    &&& self.settled_at(out.0, fill, bound, x, y)
                    &&& forall|a: int, b: int| #[trigger]
                        self.painted_at(self.data@, out.0, a, b) ==> {
                            &&& self.settled_at(out.0, fill, bound, a + 1, b)
                            &&& self.settled_at(out.0, fill, bound, a, b + 1)
                            &&& self.settled_at(out.0, fill, bound, a - 1, b)
                            &&& self.settled_at(out.0, fill, bound, a, b - 1)
                        }
                }
            }),
    {
        let pending = seq![(x, y)];
        assert(pending[0] == (x, y));
        assert(self.awaited(pending, x, y));
        self.lemma_run_closed(self.data@, self.data@, pending, fill, bound, x, y);
        let out = self.fill_run(self.data@, pending, fill, bound);
        if out.1 {
            assert forall|a: int, b: int| #[trigger]
                self.painted_at(self.data@, out.0, a, b) implies {
                &&& self.settled_at(out.0, fill, bound, a + 1, b)
                &&& self.settled_at(out.0, fill, bound, a, b + 1)
                &&& self.settled_at(out.0, fill, bound, a - 1, b)
                &&& self.settled_at(out.0, fill, bound, a, b - 1)
            } by {
                assert(self.handled(out.0, Seq::empty(), fill, bound, a + 1, b));
                assert(self.handled(out.0, Seq::empty(), fill, bound, a, b + 1));
                assert(self.handled(out.0, Seq::empty(), fill, bound, a - 1, b));
                assert(self.handled(out.0, Seq::empty(), fill, bound, a, b - 1));
            }
        }
    }

    /// A fill runs to its end while three coordinates for each fillable
    /// pixel, and those already waiting, are no more than the canvas has
    /// pixels.
    proof fn lemma_run_succeeds(
        &self,
        pixels: Seq<RGB>,
        pending: Seq<(int, int)>,
        fill: Seq<RGB>,
        bound: RGB,
    )
        requires
            self.wf(),
            pixels.len() == self.data@.len(),
            fill.len() == pixels.len(),
            pending.len() + 3 * fillable_count(pixels, fill, bound, pixels.len()) <= pixels.len(),
        ensures
            self.fill_run(pixels, pending, fill, bound).1,
        decreases fillable_count(pixels, fill, bound, pixels.len()), pending.len(),
    {
        if pending.len() > 0 {
            let next = self.fill_step(pixels, pending, fill, bound);
            let (px, py) = pending.last();
            self.lemma_pixel_index_in_range(px, py);
            if let Some(i) = self.pixel_index(px, py) {
                if fillable(pixels[i], fill[i], bound) {
                    lemma_paint_count(pixels, fill, bound, pixels.len(), i);
                }
            }
            self.lemma_run_succeeds(next.0, next.1, fill, bound);
        }
    }

    /// A fill of a small region runs to its end: it does where three times
    /// the number of fillable pixels, and one more, is at most the number
    /// of pixels.
    pub proof fn lemma_fill_succeeds_when_small(&self, x: int, y: int, fill: Seq<RGB>, bound: RGB)
        requires
            self.wf(),
            fill.len() == self.data@.len(),
            3 * fillable_count(self.data@, fill, bound, self.data@.len()) + 1
                <= self.data@.len(),
        ensures
            self.fill_run(self.data@, seq![(x, y)], fill, bound).1,
    {
        self.lemma_run_succeeds(self.data@, seq![(x, y)], fill, bound);
    }

    /// A fill from a seed that addresses no pixel, a pixel of the boundary
    /// colour or a pixel already of its fill colour changes nothing, and
    /// runs to its end.
    pub proof fn lemma_fill_of_settled_seed(&self, x: int, y: int, fill: Seq<RGB>, bound: RGB)
        requires
            self.wf(),
            fill.len() == self.data@.len(),
            self.settled_at(self.data@, fill, bound, x, y),
        ensures
            self.fill_run(self.data@, seq![(x, y)], fill, bound) == (self.data@, true),
    {
        let pending = seq![(x, y)];
        assert(pending.last() == (x, y));
        assert(pending.drop_last() =~= Seq::<(int, int)>::empty());
        let next = self.fill_step(self.data@, pending, fill, bound);
        assert(next == (self.data@, Seq::<(int, int)>::empty()));
        assert(self.fill_run(self.data@, Seq::<(int, int)>::empty(), fill, bound) == (
            self.data@,
            true,
        ));
    }

    /// A fill by a function whose seed addresses a pixel that is not of the
    /// boundary colour asks `fill` at the seed: the first answer is a
    /// colour that `fill` returns there.
    pub proof fn lemma_fn_fill_asks_seed<F: Fn(i64, i64) -> RGB>(
        &self,
        x: i32,
        y: i32,
        fill: F,
        answers: Seq<RGB>,
        bound: RGB,
        steps: nat,
    )
        requires
            steps > 0,
            self.asks(bound, x as int, y as int),
            self.fill_fn_answers(
                self.data@,
                seq![(x as int, y as int)],
                fill,
                answers,
                0,
                bound,
                steps,
            ),
        ensures
            fill.ensures((x as i64, y as i64), answers[0]),
    {
        let pending = seq![(x as int, y as int)];
        assert(pending.last() == (x as int, y as int));
        assert(self.step_asks(self.data@, pending, bound));
        assert(gives(fill, x as int, y as int, answers[0]));
    }

    /// A fill by a function from a seed that addresses no pixel, a pixel
    /// of the boundary colour or a pixel that has the colour given at the
    /// seed already changes nothing, and runs to its end.
    pub proof fn lemma_fn_fill_of_settled_seed(
        &self,
        x: int,
        y: int,
        answers: Seq<RGB>,
        bound: RGB,
        steps: nat,
    )
        requires
            steps > 0,
            match self.pixel_index(x, y) {
                Some(i) => self.data@[i] == bound || self.data@[i] == answers[0],
                None => true,
            },
        ensures
            self.fill_fn_run(self.data@, seq![(x, y)], answers, 0, bound, steps) == (
                self.data@,
                true,
            ),
    {
        let pending = seq![(x, y)];
        assert(pending.last() == (x, y));
        assert(pending.drop_last() =~= Seq::<(int, int)>::empty());
        let next = self.fill_fn_step(self.data@, pending, answers[0], bound);
        assert(next == (self.data@, Seq::<(int, int)>::empty()));
        assert(self.fill_fn_run(
            self.data@,
            Seq::<(int, int)>::empty(),
            answers,
            1,
            bound,
            (steps - 1) as nat,
        ) == (self.data@, true));
    }

    /// `(x, y)` addresses no pixel, a pixel of `region`, or a pixel of the
    /// colour `bound`.
    pub open spec fn inside_or_bound(
        &self,
        region: Set<int>,
        pixels: Seq<RGB>,
        bound: RGB,
        x: int,
        y: int,
    ) -> bool {
        match self.pixel_index(x, y) {
            Some(i) => region.contains(i) || pixels[i] == bound,
            None => true,
        }
    }

    /// `region` is walled in: from a coordinate that addresses one of its
    /// pixels, each of the four neighbours addresses no pixel, a pixel of
    /// the region, or a pixel of the colour `bound`.
    pub open spec fn walled_in(&self, region: Set<int>, pixels: Seq<RGB>, bound: RGB) -> bool {
        forall|x: int, y: int| #[trigger]
            self.lands_in(region, x, y) ==> {
                &&& self.inside_or_bound(region, pixels, bound, x + 1, y)
                &&& self.inside_or_bound(region, pixels, bound, x, y + 1)
                &&& self.inside_or_bound(region, pixels, bound, x - 1, y)
                &&& self.inside_or_bound(region, pixels, bound, x, y - 1)
            }
    }

    /// Every waiting coordinate addresses no pixel, a pixel of `region`,
    /// or a pixel of the colour `bound`.
    pub open spec fn waiting_inside(
        &self,
        region: Set<int>,
        pixels: Seq<RGB>,
        pending: Seq<(int, int)>,
        bound: RGB,
    ) -> bool {
        forall|k: int|
            0 <= k < pending.len() ==> self.inside_or_bound(
                region,
                pixels,
                bound,
                (#[trigger] pending[k]).0,
                pending[k].1,
            )
    }

    /// A fill by a function whose waiting coordinates are inside a walled
    /// region changes no pixel outside the region.
    proof fn lemma_fn_run_inside(
        &self,
        region: Set<int>,
        pixels: Seq<RGB>,
        pending: Seq<(int, int)>,
        answers: Seq<RGB>,
        at: int,
        bound: RGB,
        steps: nat,
    )
        requires
            self.wf(),
            pixels.len() == self.data@.len(),
            self.walled_in(region, pixels, bound),
            self.waiting_inside(region, pixels, pending, bound),
        ensures
            ({
                let out = self.fill_fn_run(pixels, pending, answers, at, bound, steps);
                forall|i: int|
                    0 <= i < pixels.len() && !region.contains(i) ==> out.0[i] == pixels[i]
            }),
        decreases steps,
    {
        if pending.len() > 0 && steps > 0 {
            let next = self.fill_fn_step(pixels, pending, answers[at], bound);
            let (px, py) = pending.last();
            let rest = pending.drop_last();
            let n = rest.len() as int;
            self.lemma_pixel_index_in_range(px, py);
            assert(pending[n] == (px, py));
            assert(self.inside_or_bound(region, pixels, bound, px, py));
            assert forall|x: int, y: int|
                self.inside_or_bound(region, pixels, bound, x, y) implies #[trigger]
                self.inside_or_bound(region, next.0, bound, x, y) by {
                self.lemma_pixel_index_in_range(x, y);
            }
            assert forall|x: int, y: int| #[trigger] self.lands_in(region, x, y) implies {
                &&& self.inside_or_bound(region, next.0, bound, x + 1, y)
                &&& self.inside_or_bound(region, next.0, bound, x, y + 1)
                &&& self.inside_or_bound(region, next.0, bound, x - 1, y)
                &&& self.inside_or_bound(region, next.0, bound, x, y - 1)
            } by {
                assert(self.inside_or_bound(region, pixels, bound, x + 1, y));
                assert(self.inside_or_bound(region, pixels, bound, x, y + 1));
                assert(self.inside_or_bound(region, pixels, bound, x - 1, y));
                assert(self.inside_or_bound(region, pixels, bound, x, y - 1));
            }
            assert forall|k: int| 0 <= k < next.1.len() implies self.inside_or_bound(
                region,
                next.0,
                bound,
                (#[trigger] next.1[k]).0,
                next.1[k].1,
            ) by {
                if k < n {
                    assert(next.1[k] == pending[k]);
                    assert(self.inside_or_bound(region, pixels, bound, pending[k].0, pending[k].1));
                } else {
                    assert(self.lands_in(region, px, py));
                    assert(self.inside_or_bound(region, pixels, bound, px + 1, py));
                    assert(self.inside_or_bound(region, pixels, bound, px, py + 1));
                    assert(self.inside_or_bound(region, pixels, bound, px - 1, py));
                    assert(self.inside_or_bound(region, pixels, bound, px, py - 1));
                }
            }
            if next.1.len() <= next.0.len() {
                self.lemma_fn_run_inside(
                    region,
                    next.0,
                    next.1,
                    answers,
                    at + 1,
                    bound,
                    (steps - 1) as nat,
                );
            }
        }
    }

    /// A fill by a function stays within its walls: where the seed lies in
    /// a region that is closed in by pixels of the boundary colour and by
    /// the edge of the canvas, no pixel outside the region changes, whether
    /// the fill runs to its end or is abandoned.
    pub proof fn lemma_fn_fill_stays_inside(
        &self,
        x: int,
        y: int,
        answers: Seq<RGB>,
        bound: RGB,
        region: Set<int>,
    )
        requires
            self.wf(),
            self.walled_in(region, self.data@, bound),
            self.inside_or_bound(region, self.data@, bound, x, y),
        ensures
            ({
                let out = self.fill_fn_run(
                    self.data@,
                    seq![(x, y)],
                    answers,
                    0,
                    bound,
                    FILL_STEPS as nat,
                );
                forall|i: int|
                    0 <= i < self.data@.len() && !region.contains(i) ==> out.0[i] == self.data@[i]
            }),
    {
        self.lemma_fn_run_inside(
            region,
            self.data@,
            seq![(x, y)],
            answers,
            0,
            bound,
            FILL_STEPS as nat,
        );
    }

    /// The colours that `fill` returns depend on the pixel alone: whatever
    /// it returns at a coordinate that addresses a pixel is that pixel's
    /// entry of `table`.
    pub open spec fn tabled_by<F: Fn(i64, i64) -> RGB>(&self, fill: F, table: Seq<RGB>) -> bool {
        &&& table.len() == self.data@.len()
        &&& forall|x: int, y: int, c: RGB| #[trigger]
            gives(fill, x, y, c) ==> match self.pixel_index(x, y) {
                Some(i) => c == table[i],
                None => true,
            }
    }

    /// `fill` may return the colour `c` at some coordinate that addresses
    /// the buffer position `i`.
    pub open spec fn gives_pixel<F: Fn(i64, i64) -> RGB>(&self, fill: F, i: int, c: RGB) -> bool {
        exists|x: int, y: int| #[trigger] gives(fill, x, y, c) && self.pixel_index(x, y) == Some(i)
    }

    /// The table of a function: at each buffer position a colour that the
    /// function may return at a coordinate that addresses it.
    pub open spec fn table_of<F: Fn(i64, i64) -> RGB>(&self, fill: F) -> Seq<RGB> {
        Seq::new(self.data@.len(), |i: int| choose|c: RGB| self.gives_pixel(fill, i, c))
    }

    /// On a canvas that does not wrap, the colours of a function that
    /// returns one colour for each coordinate depend on the pixel alone:
    /// its table holds them.
    pub proof fn lemma_no_wrap_tabled<F: Fn(i64, i64) -> RGB>(&self, fill: F)
        requires
            self.wf(),
            !self.x_wrap && !self.y_wrap,
            forall|x: int, y: int, c1: RGB, c2: RGB|
                #[trigger] gives(fill, x, y, c1) && #[trigger] gives(fill, x, y, c2) ==> c1 == c2,
        ensures
            self.tabled_by(fill, self.table_of(fill)),
    {
        let table = self.table_of(fill);
        assert forall|x: int, y: int, c: RGB| #[trigger] gives(fill, x, y, c) implies match self.pixel_index(
            x,
            y,
        ) {
            Some(i) => c == table[i],
            None => true,
        } by {
            if let Some(i) = self.pixel_index(x, y) {
                self.lemma_pixel_index_in_range(x, y);
                assert(self.gives_pixel(fill, i, c));
                let d = choose|d: RGB| self.gives_pixel(fill, i, d);
                assert(self.gives_pixel(fill, i, d));
                let (p, q) = choose|p: int, q: int| #[trigger]
                    gives(fill, p, q, d) && self.pixel_index(p, q) == Some(i);
                self.lemma_no_wrap_outside(x, y);
                self.lemma_no_wrap_outside(p, q);
                self.lemma_grid_injective(x, y, p, q);
                assert(table[i] == d);
            }
        }
    }

    /// Where the colours depend on the pixel alone, a fill by a function
    /// that has steps enough is the fill by their table.
    proof fn lemma_fn_run_is_table_run<F: Fn(i64, i64) -> RGB>(
        &self,
        pixels: Seq<RGB>,
        pending: Seq<(int, int)>,
        fill: F,
        answers: Seq<RGB>,
        at: int,
        table: Seq<RGB>,
        bound: RGB,
        steps: nat,
    )
        requires
            self.wf(),
            pixels.len() == self.data@.len(),
            self.tabled_by(fill, table),
            self.fill_fn_answers(pixels, pending, fill, answers, at, bound, steps),
            pending.len() + 4 * fillable_count(pixels, table, bound, pixels.len()) <= steps,
        ensures
            self.fill_fn_run(pixels, pending, answers, at, bound, steps) == self.fill_run(
                pixels,
                pending,
                table,
                bound,
            ),
        decreases steps,
    {
        if pending.len() > 0 {
            let (px, py) = pending.last();
            self.lemma_pixel_index_in_range(px, py);
            let next = self.fill_step(pixels, pending, table, bound);
            if self.step_asks(pixels, pending, bound) {
                assert(gives(fill, px, py, answers[at]));
            }
            assert(self.fill_fn_step(pixels, pending, answers[at], bound) == next);
            if let Some(i) = self.pixel_index(px, py) {
                if fillable(pixels[i], table[i], bound) {
                    lemma_paint_count(pixels, table, bound, pixels.len(), i);
                }
            }
            if next.1.len() <= next.0.len() {
                self.lemma_fn_run_is_table_run(
                    next.0,
                    next.1,
                    fill,
                    answers,
                    at + 1,
                    table,
                    bound,
                    (steps - 1) as nat,
                );
            }
        }
    }

    /// Where the colours that `fill` returns depend on the pixel alone, a
    /// fill by that function is the fill by the table of its colours, so
    /// that what holds of the one holds of the other. The canvas must be
    /// small enough for the limit of steps: four steps for each pixel, and
    /// one more.
    pub proof fn lemma_fn_fill_is_table_fill<F: Fn(i64, i64) -> RGB>(
        &self,
        x: int,
        y: int,
        fill: F,
        answers: Seq<RGB>,
        table: Seq<RGB>,
        bound: RGB,
    )
        requires
            self.wf(),
            self.tabled_by(fill, table),
            self.fill_fn_answers(
                self.data@,
                seq![(x, y)],
                fill,
                answers,
                0,
                bound,
                FILL_STEPS as nat,
            ),
            4 * self.data@.len() + 1 <= FILL_STEPS,
        ensures
            self.fill_fn_run(self.data@, seq![(x, y)], answers, 0, bound, FILL_STEPS as nat)
                == self.fill_run(self.data@, seq![(x, y)], table, bound),
    {
        lemma_count_bound(self.data@, table, bound, self.data@.len());
        self.lemma_fn_run_is_table_run(
            self.data@,
            seq![(x, y)],
            fill,
            answers,
            0,
            table,
            bound,
            FILL_STEPS as nat,
        );
    }

    /// `(x, y)` addresses no pixel, a pixel of `region`, or one that the
    /// fill would pass over.
    pub open spec fn inside_or_settled(
        &self,
        region: Set<int>,
        pixels: Seq<RGB>,
        fill: Seq<RGB>,
        bound: RGB,
        x: int,
        y: int,
    ) -> bool {
        match self.pixel_index(x, y) {
            Some(i) => region.contains(i) || !fillable(pixels[i], fill[i], bound),
            None => true,
        }
    }

    /// `(x, y)` addresses a pixel of `region`.
    pub open spec fn lands_in(&self, region: Set<int>, x: int, y: int) -> bool {
        match self.pixel_index(x, y) {
            Some(i) => region.contains(i),
            None => false,
        }
    }

    /// `region` is closed in: from a coordinate that addresses one of its
    /// pixels, each of the four neighbours addresses no pixel, a pixel of
    /// the region, or one that the fill would pass over.
    pub open spec fn encloses(
        &self,
        region: Set<int>,
        pixels: Seq<RGB>,
        fill: Seq<RGB>,
        bound: RGB,
    ) -> bool {
        forall|x: int, y: int| #[trigger]
            self.lands_in(region, x, y) ==> {
                &&& self.inside_or_settled(region, pixels, fill, bound, x + 1, y)
                &&& self.inside_or_settled(region, pixels, fill, bound, x, y + 1)
                &&& self.inside_or_settled(region, pixels, fill, bound, x - 1, y)
                &&& self.inside_or_settled(region, pixels, fill, bound, x, y - 1)
            }
    }

    /// Every waiting coordinate is inside the region or settled.
    pub open spec fn all_inside(
        &self,
        region: Set<int>,
        pixels: Seq<RGB>,
        pending: Seq<(int, int)>,
        fill: Seq<RGB>,
        bound: RGB,
    ) -> bool {
        forall|k: int|
            0 <= k < pending.len() ==> self.inside_or_settled(
                region,
                pixels,
                fill,
                bound,
                (#[trigger] pending[k]).0,
                pending[k].1,
            )
    }

    /// One step of the fill paints only inside an enclosing region and
    /// leaves only coordinates waiting that are inside it or settled.
    proof fn lemma_step_inside(
        &self,
        region: Set<int>,
        pixels: Seq<RGB>,
        pending: Seq<(int, int)>,
        fill: Seq<RGB>,
        bound: RGB,
    )
        requires
            self.wf(),
            pixels.len() == self.data@.len(),
            fill.len() == pixels.len(),
            pending.len() > 0,
            self.encloses(region, pixels, fill, bound),
            self.all_inside(region, pixels, pending, fill, bound),
        ensures
            ({
                let next = self.fill_step(pixels, pending, fill, bound);
                &&& self.encloses(region, next.0, fill, bound)
                &&& self.all_inside(region, next.0, next.1, fill, bound)
                &&& forall|i: int|
                    0 <= i < pixels.len() && !region.contains(i) ==> next.0[i] == pixels[i]
            }),
    {
        let next = self.fill_step(pixels, pending, fill, bound);
        let (px, py) = pending.last();
        let rest = pending.drop_last();
        let n = rest.len() as int;
        self.lemma_pixel_index_in_range(px, py);
        assert(pending[n] == (px, py));
        assert(self.inside_or_settled(region, pixels, fill, bound, px, py));
        assert forall|x: int, y: int|
            self.inside_or_settled(region, pixels, fill, bound, x, y) implies #[trigger]
            self.inside_or_settled(region, next.0, fill, bound, x, y) by {
            self.lemma_pixel_index_in_range(x, y);
        }
        assert forall|x: int, y: int| #[trigger] self.lands_in(region, x, y) implies {
            &&& self.inside_or_settled(region, next.0, fill, bound, x + 1, y)
            &&& self.inside_or_settled(region, next.0, fill, bound, x, y + 1)
            &&& self.inside_or_settled(region, next.0, fill, bound, x - 1, y)
            &&& self.inside_or_settled(region, next.0, fill, bound, x, y - 1)
        } by {
            assert(self.inside_or_settled(region, pixels, fill, bound, x + 1, y));
            assert(self.inside_or_settled(region, pixels, fill, bound, x, y + 1));
            assert(self.inside_or_settled(region, pixels, fill, bound, x - 1, y));
            assert(self.inside_or_settled(region, pixels, fill, bound, x, y - 1));
        }
        assert forall|k: int| 0 <= k < next.1.len() implies self.inside_or_settled(
            region,
            next.0,
            fill,
            bound,
            (#[trigger] next.1[k]).0,
            next.1[k].1,
        ) by {
            if k < n {
                assert(next.1[k] == pending[k]);
                assert(self.inside_or_settled(region, pixels, fill, bound, pending[k].0, pending[k].1));
            } else {
                assert(self.lands_in(region, px, py));
                assert(self.inside_or_settled(region, pixels, fill, bound, px + 1, py));
                assert(self.inside_or_settled(region, pixels, fill, bound, px, py + 1));
                assert(self.inside_or_settled(region, pixels, fill, bound, px - 1, py));
                assert(self.inside_or_settled(region, pixels, fill, bound, px, py - 1));
            }
        }
    }

    /// A fill whose waiting coordinates are inside an enclosing region or
    /// settled changes no pixel outside the region.
    proof fn lemma_run_inside(
        &self,
        region: Set<int>,
        pixels: Seq<RGB>,
        pending: Seq<(int, int)>,
        fill: Seq<RGB>,
        bound: RGB,
    )
        requires
            self.wf(),
            pixels.len() == self.data@.len(),
            fill.len() == pixels.len(),
            self.encloses(region, pixels, fill, bound),
            self.all_inside(region, pixels, pending, fill, bound),
        ensures
            ({
                let out = self.fill_run(pixels, pending, fill, bound);
                forall|i: int|
                    0 <= i < pixels.len() && !region.contains(i) ==> out.0[i] == pixels[i]
            }),
        decreases fillable_count(pixels, fill, bound, pixels.len()), pending.len(),
    {
        if pending.len() > 0 {
            let next = self.fill_step(pixels, pending, fill, bound);
            let (px, py) = pending.last();
            self.lemma_pixel_index_in_range(px, py);
            self.lemma_step_inside(region, pixels, pending, fill, bound);
            if next.1.len() <= next.0.len() {
                if let Some(i) = self.pixel_index(px, py) {
                    if fillable(pixels[i], fill[i], bound) {
                        lemma_paint_count(pixels, fill, bound, pixels.len(), i);
                    }
                }
                self.lemma_run_inside(region, next.0, next.1, fill, bound);
            }
        }
    }

    /// A fill stays within its enclosure: where the seed lies in a region
    /// that is closed in by pixels of the boundary colour, by pixels already
    /// of their fill colour and by the edge of the canvas, no pixel
    /// outside the region changes, whether the fill runs to its end or is
    /// abandoned.
    pub proof fn lemma_fill_stays_inside(
        &self,
        x: int,
        y: int,
        fill: Seq<RGB>,
        bound: RGB,
        region: Set<int>,
    )
        requires
            self.wf(),
            fill.len() == self.data@.len(),
            self.encloses(region, self.data@, fill, bound),
            self.inside_or_settled(region, self.data@, fill, bound, x, y),
        ensures
            ({
                let out = self.fill_run(self.data@, seq![(x, y)], fill, bound);
                forall|i: int|
                    0 <= i < self.data@.len() && !region.contains(i) ==> out.0[i] == self.data@[i]
            }),
    {
        self.lemma_run_inside(region, self.data@, seq![(x, y)], fill, bound);
    }

    /// A fill that runs to its end paints all along every walk from the
    /// seed: where each coordinate of `path` after the first is a neighbour
    /// of the one before, the first is the seed, and each addresses a
    /// fillable pixel, each of those pixels ends with its fill colour.
    pub proof fn lemma_fill_paints_path(
        &self,
        x: int,
        y: int,
        fill: Seq<RGB>,
        bound: RGB,
        path: Seq<(int, int)>,
        k: int,
    )
        requires
            self.wf(),
            fill.len() == self.data@.len(),
            0 <= k < path.len(),
            path[0] == (x, y),
            forall|j: int|
                0 <= j < path.len() ==> !self.settled_at(
                    self.data@,
                    fill,
                    bound,
                    (#[trigger] path[j]).0,
                    path[j].1,
                ),
            forall|j: int| 0 < j < path.len() ==> adjacent(path[j - 1], #[trigger] path[j]),
            self.fill_run(self.data@, seq![(x, y)], fill, bound).1,
        ensures
            ({
                let out = self.fill_run(self.data@, seq![(x, y)], fill, bound);
                let i = self.pixel_index(path[k].0, path[k].1).unwrap();
                out.0[i] == fill[i] && out.0[i] != self.data@[i]
            }),
        decreases k,
    {
        let out = self.fill_run(self.data@, seq![(x, y)], fill, bound);
        let pending = seq![(x, y)];
        assert(pending[0] == (x, y));
        assert(self.awaited(pending, x, y));
        self.lemma_run_closed(self.data@, self.data@, pending, fill, bound, x, y);
        self.lemma_fill_reaches_all(x, y, fill, bound);
        let (a, b) = path[k];
        self.lemma_pixel_index_in_range(a, b);
        assert(!self.settled_at(self.data@, fill, bound, a, b));
        if k > 0 {
            self.lemma_fill_paints_path(x, y, fill, bound, path, k - 1);
            let (c, d) = path[k - 1];
            assert(adjacent(path[k - 1], path[k]));
            assert(self.painted_at(self.data@, out.0, c, d));
            assert(self.settled_at(out.0, fill, bound, a, b));
        }
    }
}

/// Two coordinates are one step apart, along one axis.
pub open spec fn adjacent(p: (int, int), q: (int, int)) -> bool {
    ||| q == (p.0 + 1, p.1)
    ||| q == (p.0, p.1 + 1)
    ||| q == (p.0 - 1, p.1)
    ||| q == (p.0, p.1 - 1)
}

} // verus!
