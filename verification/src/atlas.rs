//! Greedy best-fit rectangle packer backing the texture and lightmap
//! atlases. A `TextureAtlas` keeps a list of free rectangles; `find`
//! chooses the free rectangle with the tightest fit, carves the request
//! out of its corner (a guillotine split), and keeps up to two leftover
//! strips for later requests.

use vstd::prelude::*;

verus! {

/// A rectangle in atlas pixel space.
#[derive(Debug, Clone, Copy, PartialEq, Eq)]
pub struct Rect {
    pub x: i32,
    pub y: i32,
    pub width: i32,
    pub height: i32,
}

impl Default for Rect {
    fn default() -> (r: Rect)
        ensures
            r == (Rect { x: 0, y: 0, width: 0, height: 0 }),
    {
        Rect { x: 0, y: 0, width: 0, height: 0 }
    }
}

/// `r` lies inside an atlas of the given dimensions.
pub open spec fn rect_within(r: Rect, width: int, height: int) -> bool {
    &&& 0 <= r.x
    &&& 0 <= r.y
    &&& 0 <= r.width
    &&& 0 <= r.height
    &&& r.x + r.width <= width
    &&& r.y + r.height <= height
}

/// `a` and `b` share no pixel.
pub open spec fn rects_disjoint(a: Rect, b: Rect) -> bool {
    ||| a.x + a.width <= b.x
    ||| b.x + b.width <= a.x
    ||| a.y + a.height <= b.y
    ||| b.y + b.height <= a.y
}

/// Every pixel of `inner` is a pixel of `outer`.
pub open spec fn rect_contains(outer: Rect, inner: Rect) -> bool {
    &&& outer.x <= inner.x
    &&& inner.x + inner.width <= outer.x + outer.width
    &&& outer.y <= inner.y
    &&& inner.y + inner.height <= outer.y + outer.height
}

/// The padding-inflated footprint that a returned rectangle occupies
/// inside the atlas.
pub open spec fn inflated(r: Rect, padding: int) -> Rect {
    Rect {
        x: (r.x - padding) as i32,
        y: (r.y - padding) as i32,
        width: (r.width + 2 * padding) as i32,
        height: (r.height + 2 * padding) as i32,
    }
}

/// Abstract state of a `TextureAtlas`: the free list, the footprints
/// handed out so far, the padding, and the atlas dimensions.
#[verifier::ext_equal]
pub ghost struct AtlasModel {
    pub free: Seq<Rect>,
    pub placed: Seq<Rect>,
    pub padding: int,
    pub width: int,
    pub height: int,
}

impl AtlasModel {
    /// Free rectangles and placed footprints all lie inside the atlas and
    /// are pairwise disjoint.
    pub open spec fn wf(self) -> bool {
        &&& 0 <= self.padding <= 0x1000
        &&& 0 <= self.width <= 0x8000
        &&& 0 <= self.height <= 0x8000
        &&& forall|i: int|
            0 <= i < self.free.len() ==> rect_within(#[trigger] self.free[i], self.width, self.height)
        &&& forall|i: int|
            0 <= i < self.placed.len() ==> rect_within(
                #[trigger] self.placed[i],
                self.width,
                self.height,
            )
        &&& forall|i: int, j: int|
            0 <= i < j < self.free.len() ==> rects_disjoint(
                #[trigger] self.free[i],
                #[trigger] self.free[j],
            )
        &&& forall|i: int, j: int|
            0 <= i < self.free.len() && 0 <= j < self.placed.len() ==> rects_disjoint(
                #[trigger] self.free[i],
                #[trigger] self.placed[j],
            )
        &&& forall|i: int, j: int|
            0 <= i < j < self.placed.len() ==> rects_disjoint(
                #[trigger] self.placed[i],
                #[trigger] self.placed[j],
            )
    }
}

/// The candidate free rectangle is large enough for a `w` by `h` request.
pub open spec fn fits(f: Rect, w: int, h: int) -> bool {
    f.width >= w && f.height >= h
}

/// Leftover area score of placing a `w` by `h` request into `f`;
/// lower is a tighter fit.
pub open spec fn fit_score(f: Rect, w: int, h: int) -> int {
    (f.width - w) * (f.height - h)
}

/// Index of the first free rectangle with the lowest score among those
/// that fit, or `None` when none fits.
pub open spec fn best_fit(free: Seq<Rect>, w: int, h: int) -> Option<int>
    decreases free.len(),
{
    if free.len() == 0 {
        None
    } else {
        let last = free.len() - 1;
        match best_fit(free.drop_last(), w, h) {
            None => if fits(free[last], w, h) {
                Some(last)
            } else {
                None
            },
            Some(b) => if fits(free[last], w, h) && fit_score(free[last], w, h) < fit_score(
                free[b],
                w,
                h,
            ) {
                Some(last)
            } else {
                Some(b)
            },
        }
    }
}

/// What `best_fit` selects: the first index achieving the minimal score
/// among the free rectangles that fit.
pub proof fn lemma_best_fit(free: Seq<Rect>, w: int, h: int)
    ensures
        match best_fit(free, w, h) {
            None => forall|i: int| 0 <= i < free.len() ==> !fits(#[trigger] free[i], w, h),
            Some(b) => {
                &&& 0 <= b < free.len()
                &&& fits(free[b], w, h)
                &&& forall|i: int|
                    0 <= i < free.len() && fits(#[trigger] free[i], w, h) ==> fit_score(
                        free[b],
                        w,
                        h,
                    ) <= fit_score(free[i], w, h)
                &&& forall|i: int|
                    0 <= i < b && fits(#[trigger] free[i], w, h) ==> fit_score(free[b], w, h)
                        < fit_score(free[i], w, h)
            },
        },
    decreases free.len(),
{
    if free.len() > 0 {
        lemma_best_fit(free.drop_last(), w, h);
        assert forall|i: int| 0 <= i < free.len() - 1 implies free.drop_last()[i] == free[i] by {}
    }
}

/// The result rectangle of a `find` request, before any state change.
pub open spec fn spec_find_rect(m: AtlasModel, w: int, h: int) -> Option<Rect> {
    let wi = w + 2 * m.padding;
    let hi = h + 2 * m.padding;
    match best_fit(m.free, wi, hi) {
        None => None,
        Some(b) => {
            let f = m.free[b];
            Some(
                Rect {
                    x: (f.x + m.padding) as i32,
                    y: (f.y + m.padding) as i32,
                    width: w as i32,
                    height: h as i32,
                },
            )
        },
    }
}

/// The atlas state after a `find` request: the chosen free rectangle is
/// removed, the placed footprint is recorded, and the leftover right and
/// bottom strips of the guillotine split are pushed back on the free list.
pub open spec fn spec_find_state(m: AtlasModel, w: int, h: int) -> AtlasModel {
    let wi = w + 2 * m.padding;
    let hi = h + 2 * m.padding;
    match best_fit(m.free, wi, hi) {
        None => m,
        Some(b) => {
            let f = m.free[b];
            let footprint = Rect { x: f.x, y: f.y, width: wi as i32, height: hi as i32 };
            let right = Rect {
                x: (f.x + wi) as i32,
                y: f.y,
                width: (f.width - wi) as i32,
                height: f.height,
            };
            let bottom = Rect {
                x: f.x,
                y: (f.y + hi) as i32,
                width: wi as i32,
                height: (f.height - hi) as i32,
            };
            let removed = m.free.remove(b);
            let with_right = if f.width - wi > 0 {
                removed.push(right)
            } else {
                removed
            };
            let with_bottom = if f.height - hi > 0 {
                with_right.push(bottom)
            } else {
                with_right
            };
            AtlasModel { free: with_bottom, placed: m.placed.push(footprint), ..m }
        },
    }
}

/// Greedy best-fit 2D bin packer with guillotine splits.
pub struct TextureAtlas {
    free_rects: Vec<Rect>,
    padding: i32,
    dims: Ghost<(int, int)>,
    placed: Ghost<Seq<Rect>>,
}

impl View for TextureAtlas {
    type V = AtlasModel;

    closed spec fn view(&self) -> AtlasModel {
        AtlasModel {
            free: self.free_rects@,
            placed: self.placed@,
            padding: self.padding as int,
            width: self.dims@.0,
            height: self.dims@.1,
        }
    }
}

impl TextureAtlas {
    /// Fresh atlas with no padding: one free rectangle spanning the whole
    /// atlas, nothing placed.
    pub fn new(width: i32, height: i32) -> (r: TextureAtlas)
        requires
            0 <= width <= 0x8000,
            0 <= height <= 0x8000,
        ensures
            r@.wf(),
            r@.width == width,
            r@.height == height,
            r@.padding == 0,
            r@.placed == Seq::<Rect>::empty(),
            r@.free == seq![(Rect { x: 0, y: 0, width, height })],
    {
        let mut free_rects: Vec<Rect> = Vec::new();
        free_rects.push(Rect { x: 0, y: 0, width, height });
        let r = TextureAtlas {
            free_rects,
            padding: 0,
            dims: Ghost((width as int, height as int)),
            placed: Ghost(Seq::empty()),
        };
        proof {
            assert(r@.free =~= seq![(Rect { x: 0, y: 0, width, height })]);
        }
        r
    }

    /// Fresh atlas that reserves a `padding`-pixel border around every
    /// placed rectangle.
    pub fn new_padded(width: i32, height: i32, padding: i32) -> (r: TextureAtlas)
        requires
            0 <= width <= 0x8000,
            0 <= height <= 0x8000,
            0 <= padding <= 0x1000,
        ensures
            r@.wf(),
            r@.width == width,
            r@.height == height,
            r@.padding == padding,
            r@.placed == Seq::<Rect>::empty(),
            r@.free == seq![(Rect { x: 0, y: 0, width, height })],
    {
        let mut free_rects: Vec<Rect> = Vec::new();
        free_rects.push(Rect { x: 0, y: 0, width, height });
        let r = TextureAtlas {
            free_rects,
            padding,
            dims: Ghost((width as int, height as int)),
            placed: Ghost(Seq::empty()),
        };
        proof {
            assert(r@.free =~= seq![(Rect { x: 0, y: 0, width, height })]);
        }
        r
    }

    /// Place a `width` by `height` request. The request is inflated by the
    /// padding on each side, the tightest-fitting free rectangle is chosen
    /// (first such on ties, stopping at a perfect fit), the leftover strips
    /// are kept, and the returned rectangle is deflated back so the caller
    /// receives exactly the requested size with a padding margin around it.
    pub fn find(&mut self, width: i32, height: i32) -> (r: Option<Rect>)
        requires
            old(self)@.wf(),
            1 <= width,
            1 <= height,
            width + 2 * old(self)@.padding <= 0x8000,
            height + 2 * old(self)@.padding <= 0x8000,
        ensures
            final(self)@.wf(),
            r == spec_find_rect(old(self)@, width as int, height as int),
            final(self)@ == spec_find_state(old(self)@, width as int, height as int),
            final(self)@.padding == old(self)@.padding,
            final(self)@.width == old(self)@.width,
            final(self)@.height == old(self)@.height,
            match r {
                Some(rect) => {
                    &&& rect.width == width
                    &&& rect.height == height
                    &&& final(self)@.placed == old(self)@.placed.push(
                        inflated(rect, old(self)@.padding),
                    )
                    &&& rect_within(inflated(rect, old(self)@.padding), old(self)@.width, old(self)@.height)
                    &&& forall|i: int|
                        0 <= i < old(self)@.placed.len() ==> rects_disjoint(
                            #[trigger] old(self)@.placed[i],
                            inflated(rect, old(self)@.padding),
                        )
                },
                None => {
                    &&& *final(self) == *old(self)
                    &&& forall|i: int|
                        0 <= i < old(self)@.free.len() ==> !fits(
                            #[trigger] old(self)@.free[i],
                            width + 2 * old(self)@.padding,
                            height + 2 * old(self)@.padding,
                        )
                },
            },
    {
        let ghost rw = width as int;
        let ghost rh = height as int;
        let width = width + self.padding * 2;
        let height = height + self.padding * 2;
        let ghost m = self@;
        let ghost wi = width as int;
        let ghost hi = height as int;
        let mut best: Option<(i32, usize)> = None;
        let mut idx: usize = 0;
        proof {
            if m.free.len() == 0 {
                assert(m.free.take(0) =~= m.free);
            }
        }
        while idx < self.free_rects.len()
            invariant_except_break
                match best {
                    None => best_fit(m.free.take(idx as int), wi, hi) is None,
                    Some((score, b)) => {
                        &&& best_fit(m.free.take(idx as int), wi, hi) == Some(b as int)
                        &&& b < idx
                        &&& score == fit_score(m.free[b as int], wi, hi)
                    },
                },
            invariant
                m.wf(),
                self@ == m,
                1 <= wi <= 0x8000,
                1 <= hi <= 0x8000,
                width == wi,
                height == hi,
                idx <= m.free.len(),
                idx == m.free.len() ==> m.free.take(idx as int) == m.free,
            ensures
                self@ == m,
                match best {
                    None => best_fit(m.free, wi, hi) is None,
                    Some((score, b)) => best_fit(m.free, wi, hi) == Some(b as int) && b
                        < m.free.len(),
                },
            decreases m.free.len() - idx,
        {
            let free = self.free_rects[idx];
            proof {
                assert(rect_within(m.free[idx as int], m.width, m.height));
                assert((free.width - wi) * (free.height - hi) <= 0x4000_0000 && (free.width - wi)
                    * (free.height - hi) >= -0x4000_0000) by (nonlinear_arith)
                    requires
                        -0x8000 <= free.width - wi <= 0x8000,
                        -0x8000 <= free.height - hi <= 0x8000,
                {
                }
            }
            let score = (free.width - width) * (free.height - height);
            proof {
                assert(m.free.take(idx as int + 1).drop_last() =~= m.free.take(idx as int));
                assert(m.free.take(idx as int + 1).last() == m.free[idx as int]);
            }
            let better = match best {
                None => true,
                Some((best_score, _)) => best_score > score,
            };
            if score >= 0 && free.width >= width && free.height >= height && better {
                best = Some((score, idx));
                if score == 0 {
                    idx = idx + 1;
                    proof {
                        lemma_best_fit_zero_stable(m.free, wi, hi, idx as int);
                    }
                    break;
                }
            }
            idx = idx + 1;
            proof {
                if idx == m.free.len() {
                    assert(m.free.take(idx as int) =~= m.free);
                }
            }
        }

        match best {
            Some((_, best_idx)) => {
                proof {
                    lemma_best_fit(m.free, wi, hi);
                }
                let mut rect = self.free_rects.remove(best_idx);
                let ret = Rect { x: rect.x, y: rect.y, width, height };

                if rect.width - width > 0 {
                    self.free_rects.push(
                        Rect {
                            x: rect.x + width,
                            y: rect.y,
                            width: rect.width - width,
                            height: rect.height,
                        },
                    );
                    rect.width = width;
                }
                if rect.height - height > 0 {
                    self.free_rects.push(
                        Rect {
                            x: rect.x,
                            y: rect.y + height,
                            width: rect.width,
                            height: rect.height - height,
                        },
                    );
                }
                let ghost footprint = Rect { x: ret.x, y: ret.y, width: wi as i32, height: hi as i32 };
                proof {
                    self.placed@ = m.placed.push(footprint);
                }
                let result = Rect {
                    x: ret.x + self.padding,
                    y: ret.y + self.padding,
                    width: ret.width - self.padding * 2,
                    height: ret.height - self.padding * 2,
                };
                proof {
                    lemma_find_state_wf(m, rw, rh);
                    assert(self@ =~= spec_find_state(m, rw, rh));
                    assert(inflated(result, m.padding) == footprint);
                    assert(spec_find_state(m, rw, rh).placed == m.placed.push(footprint));
                }
                Some(result)
            },
            None => {
                proof {
                    lemma_best_fit(m.free, wi, hi);
                }
                None
            },
        }
    }
}

/// A best fit with score zero in a prefix is the best fit of the whole
/// free list: no later rectangle can beat a perfect fit.
proof fn lemma_best_fit_zero_stable(free: Seq<Rect>, w: int, h: int, n: int)
    requires
        0 <= n <= free.len(),
        best_fit(free.take(n), w, h) is Some,
        fit_score(free[best_fit(free.take(n), w, h).unwrap()], w, h) == 0,
        0 <= best_fit(free.take(n), w, h).unwrap() < n,
    ensures
        best_fit(free, w, h) == best_fit(free.take(n), w, h),
    decreases free.len() - n,
{
    if n < free.len() {
        let b = best_fit(free.take(n), w, h).unwrap();
        assert(free.take(n + 1).drop_last() =~= free.take(n));
        assert(free.take(n + 1).last() == free[n]);
        if fits(free[n], w, h) {
            assert(fit_score(free[n], w, h) >= 0) by (nonlinear_arith)
                requires
                    fits(free[n], w, h),
                    fit_score(free[n], w, h) == (free[n].width - w) * (free[n].height - h),
            {
            }
        }
        assert(best_fit(free.take(n + 1), w, h) == best_fit(free.take(n), w, h));
        lemma_best_fit_zero_stable(free, w, h, n + 1);
    } else {
        assert(free.take(n) =~= free);
    }
}

/// The guillotine split preserves well-formedness: the carved footprint
/// and the leftover strips stay inside the chosen free rectangle, so they
/// remain inside the atlas and disjoint from everything else.
pub proof fn lemma_find_state_wf(m: AtlasModel, w: int, h: int)
    requires
        m.wf(),
        1 <= w,
        1 <= h,
        w + 2 * m.padding <= 0x8000,
        h + 2 * m.padding <= 0x8000,
    ensures
        spec_find_state(m, w, h).wf(),
{
    let wi = w + 2 * m.padding;
    let hi = h + 2 * m.padding;
    match best_fit(m.free, wi, hi) {
        None => {},
        Some(b) => {
            lemma_best_fit(m.free, wi, hi);
            let f = m.free[b];
            let next = spec_find_state(m, w, h);
            let removed = m.free.remove(b);
            assert forall|i: int| 0 <= i < removed.len() implies #[trigger] removed[i] == if i < b {
                m.free[i]
            } else {
                m.free[i + 1]
            } by {}
            assert forall|i: int, j: int|
                0 <= i < next.free.len() && 0 <= j < next.placed.len() implies rects_disjoint(
                #[trigger] next.free[i],
                #[trigger] next.placed[j],
            ) by {
                if j < m.placed.len() {
                    if i >= removed.len() {
                        assert(rect_contains(f, next.free[i]));
                        assert(rects_disjoint(f, m.placed[j]));
                    }
                } else {
                    assert(next.placed[j] == (Rect {
                        x: f.x,
                        y: f.y,
                        width: wi as i32,
                        height: hi as i32,
                    }));
                    if i < removed.len() {
                        assert(rects_disjoint(next.free[i], f));
                        assert(rect_contains(f, next.placed[j]));
                    }
                }
            }
            assert forall|i: int, j: int| 0 <= i < j < next.free.len() implies rects_disjoint(
                #[trigger] next.free[i],
                #[trigger] next.free[j],
            ) by {
                if j >= removed.len() {
                    if i < removed.len() {
                        assert(rect_contains(f, next.free[j]));
                        assert(rects_disjoint(next.free[i], f));
                    }
                }
            }
            assert forall|i: int, j: int| 0 <= i < j < next.placed.len() implies rects_disjoint(
                #[trigger] next.placed[i],
                #[trigger] next.placed[j],
            ) by {
                if j == m.placed.len() {
                    assert(rect_contains(f, next.placed[j]));
                    assert(rects_disjoint(m.placed[i], f));
                }
            }
            assert forall|i: int| 0 <= i < next.free.len() implies rect_within(
                #[trigger] next.free[i],
                next.width,
                next.height,
            ) by {
                if i >= removed.len() {
                    assert(rect_contains(f, next.free[i]));
                }
            }
        },
    }
}

/// Law: all footprints an atlas has handed out are pairwise disjoint and
/// lie inside the atlas bounds. Together with `find`'s postcondition that
/// well-formedness is preserved and each returned rectangle's inflated
/// footprint is appended to `placed`, this holds after any sequence of
/// `find` calls.
pub proof fn lemma_placed_pairwise_disjoint(m: AtlasModel, i: int, j: int)
    requires
        m.wf(),
        0 <= i < m.placed.len(),
        0 <= j < m.placed.len(),
        i != j,
    ensures
        rects_disjoint(m.placed[i], m.placed[j]),
        rect_within(m.placed[i], m.width, m.height),
{
}

/// The placements a sequence of `find` requests produces, in order.
pub open spec fn spec_pack_sequence(m: AtlasModel, reqs: Seq<(int, int)>) -> Seq<Option<Rect>>
    decreases reqs.len(),
{
    if reqs.len() == 0 {
        Seq::empty()
    } else {
        let first = reqs[0];
        seq![spec_find_rect(m, first.0, first.1)] + spec_pack_sequence(
            spec_find_state(m, first.0, first.1),
            reqs.drop_first(),
        )
    }
}

/// Law: packing is deterministic. `find`'s postcondition pins its result
/// and successor state to `spec_find_rect` and `spec_find_state`, which are
/// functions of the abstract state alone, so two atlases in equal states
/// given the same request sequence return identical placements throughout.
pub proof fn lemma_pack_deterministic(m1: AtlasModel, m2: AtlasModel, reqs: Seq<(int, int)>)
    requires
        m1 == m2,
    ensures
        spec_pack_sequence(m1, reqs) == spec_pack_sequence(m2, reqs),
{
}

} // verus!

verus! {

/// The rectangle covers the pixel `(px, py)`.
pub open spec fn covers(r: Rect, px: int, py: int) -> bool {
    r.x <= px < r.x + r.width && r.y <= py < r.y + r.height
}

/// The pixel `(px, py)` lies in some free rectangle or placed footprint.
pub open spec fn pixel_covered(m: AtlasModel, px: int, py: int) -> bool {
    ||| exists|i: int| 0 <= i < m.free.len() && covers(#[trigger] m.free[i], px, py)
    ||| exists|i: int| 0 <= i < m.placed.len() && covers(#[trigger] m.placed[i], px, py)
}

/// Every pixel of the atlas lies in some free rectangle or some placed
/// footprint.
pub open spec fn full_coverage(m: AtlasModel) -> bool {
    forall|px: int, py: int|
        0 <= px < m.width && 0 <= py < m.height ==> #[trigger] pixel_covered(m, px, py)
}

/// A fresh atlas is fully covered by its single free rectangle.
pub proof fn lemma_initial_coverage(m: AtlasModel)
    requires
        m.free == seq![
            (Rect { x: 0, y: 0, width: m.width as i32, height: m.height as i32 }),
        ],
        0 <= m.width <= 0x8000,
        0 <= m.height <= 0x8000,
    ensures
        full_coverage(m),
{
    assert forall|px: int, py: int|
        0 <= px < m.width && 0 <= py < m.height implies #[trigger] pixel_covered(m, px, py) by {
        assert(covers(m.free[0], px, py));
    }
}

/// Law: the guillotine split loses no pixel. The placed footprint and the
/// two leftover strips exactly partition the chosen free rectangle, so the
/// free rectangles and placed footprints together cover the whole atlas
/// after any sequence of `find` calls.
pub proof fn lemma_find_preserves_coverage(m: AtlasModel, w: int, h: int)
    requires
        m.wf(),
        full_coverage(m),
        1 <= w,
        1 <= h,
        w + 2 * m.padding <= 0x8000,
        h + 2 * m.padding <= 0x8000,
    ensures
        full_coverage(spec_find_state(m, w, h)),
{
    let wi = w + 2 * m.padding;
    let hi = h + 2 * m.padding;
    let next = spec_find_state(m, w, h);
    match best_fit(m.free, wi, hi) {
        None => {},
        Some(b) => {
            lemma_best_fit(m.free, wi, hi);
            let f = m.free[b];
            let removed = m.free.remove(b);
            assert forall|px: int, py: int|
                0 <= px < next.width && 0 <= py < next.height implies #[trigger] pixel_covered(
                next,
                px,
                py,
            ) by {
                assert(pixel_covered(m, px, py));
                if covers(f, px, py) {
                    if px >= f.x + wi {
                        // The right strip.
                        assert(f.width - wi > 0);
                        let i = removed.len() as int;
                        assert(covers(next.free[i], px, py));
                    } else if py >= f.y + hi {
                        // The bottom strip.
                        assert(f.height - hi > 0);
                        let i = next.free.len() - 1;
                        assert(covers(next.free[i], px, py));
                    } else {
                        // The placed footprint.
                        let i = next.placed.len() - 1;
                        assert(covers(next.placed[i], px, py));
                    }
                } else {
                    let fi = choose|i: int|
                        0 <= i < m.free.len() && covers(#[trigger] m.free[i], px, py);
                    let pi = choose|i: int|
                        0 <= i < m.placed.len() && covers(#[trigger] m.placed[i], px, py);
                    if 0 <= fi < m.free.len() && covers(m.free[fi], px, py) {
                        assert(fi != b);
                        let i = if fi < b {
                            fi
                        } else {
                            fi - 1
                        };
                        assert(next.free[i] == m.free[fi]);
                        assert(covers(next.free[i], px, py));
                    } else {
                        assert(covers(m.placed[pi], px, py));
                        assert(covers(next.placed[pi], px, py));
                    }
                }
            }
        },
    }
}

} // verus!
