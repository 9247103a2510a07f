//! The level baker: packs the level's textures into a mipmapped atlas and
//! its lightmaps into a padded atlas, and emits triangle-fan vertex
//! streams for the opaque level geometry, the sky-surface stencil pass,
//! and the procedural sky box.

use vstd::prelude::*;
use vstd::arithmetic::div_mod::{
    lemma_div_is_ordered, lemma_fundamental_div_mod, lemma_fundamental_div_mod_converse,
};
use vstd::arithmetic::mul::{lemma_mul_inequality, lemma_mul_nonnegative};
use crate::atlas::{
    best_fit, fits, lemma_best_fit, lemma_find_state_wf, rect_within, spec_find_rect,
    spec_find_state, AtlasModel, Rect, TextureAtlas,
};
use crate::bsp::{mip_div, BspFile, Face, Texture, TextureInfo, Vec3};

verus! {

/// Pixel dimension of the texture and lightmap atlases.
pub const ATLAS_SIZE: u32 = 1024;

/// One baked vertex: world position, atlas texel origin of its texture,
/// raw texture-space projection with the texture size, lightmap-atlas
/// texel (or `-1, -1` when the face has no lightmap), base light level,
/// and lighting type.
#[verifier::ext_equal]
#[derive(Debug, Clone, Copy, PartialEq, Eq)]
pub struct Vertex {
    pub position: [i32; 3],
    pub tex: [u16; 2],
    pub tex_info: [i16; 4],
    pub light_info: [i16; 2],
    pub light: u8,
    pub light_type: u8,
}

/// A packing request: the id it stands for (texture id or lightmap byte
/// offset) and its pixel size.
#[derive(Debug, Clone, Copy, PartialEq, Eq, Structural)]
pub struct TSortable {
    pub idx: i32,
    pub width: u32,
    pub height: u32,
}

/// Pixel area of a request, the packing order key.
pub open spec fn area(t: TSortable) -> int {
    t.width * t.height
}

/// Insert `x` into a list after every element of equal or larger area.
pub open spec fn spec_insert_desc(s: Seq<TSortable>, x: TSortable) -> Seq<TSortable>
    decreases s.len(),
{
    if s.len() == 0 {
        seq![x]
    } else if area(s.last()) >= area(x) {
        s.push(x)
    } else {
        spec_insert_desc(s.drop_last(), x).push(s.last())
    }
}

/// Stable insertion sort by descending area: larger requests first, ties
/// kept in input order.
pub open spec fn spec_sort_desc(s: Seq<TSortable>) -> Seq<TSortable>
    decreases s.len(),
{
    if s.len() == 0 {
        Seq::empty()
    } else {
        spec_insert_desc(spec_sort_desc(s.drop_last()), s.last())
    }
}

/// Areas never increase along the list.
pub open spec fn sorted_desc(s: Seq<TSortable>) -> bool {
    forall|i: int, j: int| 0 <= i <= j < s.len() ==> area(#[trigger] s[i]) >= area(#[trigger] s[j])
}

/// Inserting into a descending list keeps it descending.
proof fn lemma_insert_desc_sorted(s: Seq<TSortable>, x: TSortable)
    requires
        sorted_desc(s),
    ensures
        sorted_desc(spec_insert_desc(s, x)),
        spec_insert_desc(s, x).len() == s.len() + 1,
    decreases s.len(),
{
    if s.len() == 0 {
    } else if area(s.last()) >= area(x) {
        let r = s.push(x);
        assert forall|i: int, j: int| 0 <= i <= j < r.len() implies area(#[trigger] r[i]) >= area(
            #[trigger] r[j],
        ) by {
            if j < s.len() {
            } else {
                assert(r[j] == x);
                if i < s.len() {
                    assert(area(s[i]) >= area(s.last()));
                }
            }
        }
    } else {
        assert(sorted_desc(s.drop_last())) by {
            assert forall|i: int, j: int| 0 <= i <= j < s.len() - 1 implies area(
                #[trigger] s.drop_last()[i],
            ) >= area(#[trigger] s.drop_last()[j]) by {
                assert(s.drop_last()[i] == s[i]);
                assert(s.drop_last()[j] == s[j]);
            }
        }
        lemma_insert_desc_sorted(s.drop_last(), x);
        let inner = spec_insert_desc(s.drop_last(), x);
        let r = inner.push(s.last());
        lemma_insert_desc_members(s.drop_last(), x);
        assert forall|i: int, j: int| 0 <= i <= j < r.len() implies area(#[trigger] r[i]) >= area(
            #[trigger] r[j],
        ) by {
            if j == r.len() - 1 && i < j {
                assert(r[j] == s.last());
                let e = inner[i];
                assert((exists|k: int| 0 <= k < s.len() - 1 && e == s.drop_last()[k]) || e == x);
                if exists|k: int| 0 <= k < s.len() - 1 && e == s.drop_last()[k] {
                    let k = choose|k: int| 0 <= k < s.len() - 1 && e == s.drop_last()[k];
                    assert(area(s[k]) >= area(s[s.len() - 1]));
                }
            }
        }
    }
}

/// Every element of an insertion result is an element of the input or the
/// inserted one.
proof fn lemma_insert_desc_members(s: Seq<TSortable>, x: TSortable)
    ensures
        forall|i: int|
            0 <= i < spec_insert_desc(s, x).len() ==> (exists|k: int|
                0 <= k < s.len() && #[trigger] spec_insert_desc(s, x)[i] == s[k]) || spec_insert_desc(
                s,
                x,
            )[i] == x,
    decreases s.len(),
{
    if s.len() == 0 {
    } else if area(s.last()) >= area(x) {
        assert forall|i: int| 0 <= i < spec_insert_desc(s, x).len() implies (exists|k: int|
            0 <= k < s.len() && #[trigger] spec_insert_desc(s, x)[i] == s[k]) || spec_insert_desc(
            s,
            x,
        )[i] == x by {
            if i < s.len() {
                assert(spec_insert_desc(s, x)[i] == s[i]);
            }
        }
    } else {
        lemma_insert_desc_members(s.drop_last(), x);
        let inner = spec_insert_desc(s.drop_last(), x);
        assert forall|i: int| 0 <= i < inner.push(s.last()).len() implies (exists|k: int|
            0 <= k < s.len() && #[trigger] inner.push(s.last())[i] == s[k]) || inner.push(
            s.last(),
        )[i] == x by {
            if i < inner.len() {
                assert(inner.push(s.last())[i] == inner[i]);
                if exists|k: int| 0 <= k < s.len() - 1 && inner[i] == s.drop_last()[k] {
                    let k = choose|k: int| 0 <= k < s.len() - 1 && inner[i] == s.drop_last()[k];
                    assert(inner[i] == s[k]);
                }
            } else {
                assert(inner.push(s.last())[i] == s[s.len() - 1]);
            }
        }
    }
}

/// The position the exec insertion scan finds is where `spec_insert_desc`
/// puts the element.
proof fn lemma_insert_desc_at(s: Seq<TSortable>, x: TSortable, j: int)
    requires
        0 <= j <= s.len(),
        j == 0 || area(s[j - 1]) >= area(x),
        forall|k: int| j <= k < s.len() ==> area(#[trigger] s[k]) < area(x),
    ensures
        spec_insert_desc(s, x) == s.insert(j, x),
    decreases s.len(),
{
    if s.len() == 0 {
        assert(spec_insert_desc(s, x) =~= s.insert(0, x));
    } else if area(s.last()) >= area(x) {
        assert(j == s.len());
        assert(s.push(x) =~= s.insert(j, x));
    } else {
        assert(j < s.len());
        assert forall|k: int| j <= k < s.len() - 1 implies area(#[trigger] s.drop_last()[k]) < area(
            x,
        ) by {
            assert(s.drop_last()[k] == s[k]);
        }
        if j > 0 {
            assert(s.drop_last()[j - 1] == s[j - 1]);
        }
        lemma_insert_desc_at(s.drop_last(), x, j);
        assert(spec_insert_desc(s.drop_last(), x).push(s.last()) =~= s.insert(j, x));
    }
}

/// Sort packing requests by descending area, keeping the input order of
/// equal areas, so larger rectangles are placed first.
pub fn sort_tiles(list: Vec<TSortable>) -> (r: Vec<TSortable>)
    ensures
        r@ == spec_sort_desc(list@),
        sorted_desc(r@),
        r@.len() == list@.len(),
{
    let mut out: Vec<TSortable> = Vec::new();
    let mut i: usize = 0;
    proof {
        assert(list@.take(0) =~= Seq::<TSortable>::empty());
    }
    while i < list.len()
        invariant
            i <= list@.len(),
            out@ == spec_sort_desc(list@.take(i as int)),
            sorted_desc(out@),
            out@.len() == i,
        decreases list@.len() - i,
    {
        let x = list[i];
        let ghost pre = out@;
        let mut j = out.len();
        while j > 0
            invariant_except_break
                j <= out@.len(),
                forall|k: int| j <= k < out@.len() ==> area(#[trigger] out@[k]) < area(x),
            invariant
                out@ == pre,
                j <= out@.len(),
            ensures
                out@ == pre,
                j <= out@.len(),
                j == 0 || area(out@[j - 1]) >= area(x),
                forall|k: int| j <= k < out@.len() ==> area(#[trigger] out@[k]) < area(x),
            decreases j,
        {
            let prev = out[j - 1];
            proof {
                vstd::arithmetic::mul::lemma_mul_upper_bound(
                    prev.width as int,
                    0xFFFF_FFFF,
                    prev.height as int,
                    0xFFFF_FFFF,
                );
                vstd::arithmetic::mul::lemma_mul_upper_bound(
                    x.width as int,
                    0xFFFF_FFFF,
                    x.height as int,
                    0xFFFF_FFFF,
                );
                lemma_mul_nonnegative(prev.width as int, prev.height as int);
                lemma_mul_nonnegative(x.width as int, x.height as int);
            }
            let fits_here = (prev.width as u64) * (prev.height as u64) < (x.width as u64) * (
            x.height as u64);
            if !fits_here {
                break;
            }
            j = j - 1;
        }
        out.insert(j, x);
        i = i + 1;
        proof {
            lemma_insert_desc_at(pre, x, j as int);
            lemma_insert_desc_sorted(pre, x);
            assert(list@.take(i as int).drop_last() =~= list@.take(i as int - 1));
            assert(list@.take(i as int).last() == list@[i as int - 1]);
        }
    }
    proof {
        assert(list@.take(list@.len() as int) =~= list@);
    }
    out
}

} // verus!

verus! {

/// A linear pixel index decomposes uniquely into row and column.
proof fn lemma_pixel_index(x: int, y: int, stride: int)
    requires
        1 <= stride,
        0 <= x < stride,
        0 <= y,
    ensures
        (x + y * stride) / stride == y,
        (x + y * stride) % stride == x,
{
    lemma_fundamental_div_mod_converse(x + y * stride, stride, y, x);
}

/// Destination pixels after copying the first `rows` full rows and `cols`
/// pixels of the next row of an `sw`-wide source image to `(dx, dy)`.
pub open spec fn blit_partial(
    d0: Seq<u8>,
    stride: int,
    dx: int,
    dy: int,
    src: Seq<u8>,
    sw: int,
    rows: int,
    cols: int,
) -> Seq<u8> {
    Seq::new(
        d0.len(),
        |i: int|
            {
                let x = i % stride;
                let y = i / stride;
                if dx <= x < dx + sw && dy <= y < dy + rows {
                    src[(x - dx) + (y - dy) * sw]
                } else if y == dy + rows && dx <= x < dx + cols {
                    src[(x - dx) + (y - dy) * sw]
                } else {
                    d0[i]
                }
            },
    )
}

/// Pixels after copying an `sw` by `sh` image to `(dx, dy)` of a
/// `stride`-wide destination.
pub open spec fn spec_blit(
    d0: Seq<u8>,
    stride: int,
    dx: int,
    dy: int,
    src: Seq<u8>,
    sw: int,
    sh: int,
) -> Seq<u8> {
    blit_partial(d0, stride, dx, dy, src, sw, sh, 0)
}

/// Copy an `sw` by `sh` source image to position `(dx, dy)` of a
/// `stride`-wide destination buffer.
pub fn blit(
    dst: &mut Vec<u8>,
    stride: usize,
    dx: usize,
    dy: usize,
    src: &Vec<u8>,
    sw: usize,
    sh: usize,
)
    requires
        1 <= stride,
        dx + sw <= stride,
        sh >= 1 ==> (dy + sh - 1) * stride + stride <= old(dst).len(),
        src.len() == sw * sh,
    ensures
        final(dst)@ == spec_blit(
            old(dst)@,
            stride as int,
            dx as int,
            dy as int,
            src@,
            sw as int,
            sh as int,
        ),
{
    let ghost d0 = dst@;
    let ghost st = stride as int;
    let ghost dxi = dx as int;
    let ghost dyi = dy as int;
    let ghost swi = sw as int;
    let mut y: usize = 0;
    proof {
        assert(dst@ =~= blit_partial(d0, st, dxi, dyi, src@, swi, 0, 0));
    }
    while y < sh
        invariant
            y <= sh,
            1 <= stride,
            dx + sw <= stride,
            sh >= 1 ==> (dy + sh - 1) * stride + stride <= d0.len(),
            src@.len() == sw * sh,
            dst@.len() == d0.len(),
            st == stride as int,
            dxi == dx as int,
            dyi == dy as int,
            swi == sw as int,
            dst@ == blit_partial(d0, st, dxi, dyi, src@, swi, y as int, 0),
        decreases sh - y,
    {
        proof {
            lemma_mul_inequality(dyi + y, dyi + sh - 1, st);
            lemma_mul_nonnegative(dyi + y, st);
            lemma_mul_nonnegative(y as int, swi);
            lemma_mul_inequality(y as int + 1, sh as int, swi);
            vstd::arithmetic::mul::lemma_mul_is_distributive_add_other_way(swi, y as int, 1);
            assert(dst.len() == dst@.len());
            assert(src.len() == src@.len());
            lemma_mul_inequality(y as int, y as int + 1, swi);
            assert(dyi + y <= (dyi + sh - 1) * st) by (nonlinear_arith)
                requires
                    1 <= st,
                    0 <= dyi,
                    0 <= y < sh,
            {
            }
        }
        let row_base = (dy + y) * stride;
        let src_row = y * sw;
        let mut x: usize = 0;
        while x < sw
            invariant
                x <= sw,
                y < sh,
                1 <= stride,
                dx + sw <= stride,
                row_base == (dy + y) * stride,
                row_base + stride <= d0.len(),
                src_row == y * sw,
                src_row + sw <= src@.len(),
                src@.len() == sw * sh,
                dst@.len() == d0.len(),
                st == stride as int,
                dxi == dx as int,
                dyi == dy as int,
                swi == sw as int,
                dst@ == blit_partial(d0, st, dxi, dyi, src@, swi, y as int, x as int),
            decreases sw - x,
        {
            proof {
                assert(dst.len() == dst@.len());
                assert(src.len() == src@.len());
            }
            let di = row_base + dx + x;
            dst.set(di, src[src_row + x]);
            x = x + 1;
            proof {
                lemma_pixel_index(dxi + x - 1, dyi + y, st);
                let target = blit_partial(d0, st, dxi, dyi, src@, swi, y as int, x as int);
                assert forall|i: int| 0 <= i < d0.len() implies dst@[i] == target[i] by {
                    lemma_fundamental_div_mod(i, st);
                    vstd::arithmetic::div_mod::lemma_mod_pos_bound(i, st);
                    vstd::arithmetic::div_mod::lemma_div_pos_is_pos(i, st);
                    if i != di && i % st == dxi + x - 1 && i / st == dyi + y {
                        assert(i == st * (i / st) + i % st);
                        assert(di == (dxi + x - 1) + (dyi + y) * st);
                        assert(i == di) by (nonlinear_arith)
                            requires
                                i == st * (i / st) + i % st,
                                i % st == dxi + x - 1,
                                i / st == dyi + y,
                                di == (dxi + x - 1) + (dyi + y) * st,
                        {
                        }
                    }
                }
                assert(dst@ =~= target);
            }
        }
        y = y + 1;
        proof {
            let target = blit_partial(d0, st, dxi, dyi, src@, swi, y as int, 0);
            assert forall|i: int| 0 <= i < d0.len() implies dst@[i] == target[i] by {
                vstd::arithmetic::div_mod::lemma_mod_pos_bound(i, st);
                vstd::arithmetic::div_mod::lemma_div_pos_is_pos(i, st);
            }
            assert(dst@ =~= target);
        }
    }
    proof {
        let target = spec_blit(d0, st, dxi, dyi, src@, swi, sh as int);
        assert forall|i: int| 0 <= i < d0.len() implies dst@[i] == target[i] by {
            vstd::arithmetic::div_mod::lemma_mod_pos_bound(i, st);
            vstd::arithmetic::div_mod::lemma_div_pos_is_pos(i, st);
        }
        assert(dst@ =~= target);
    }
}

} // verus!

verus! {

/// Clamp a source coordinate into `[0, n-1]`.
pub open spec fn clampi(v: int, n: int) -> int {
    if v < 0 {
        0
    } else if v > n - 1 {
        n - 1
    } else {
        v
    }
}

/// Destination pixels after the clamped copy has covered `rows` full rows
/// and `cols` pixels of the next row of the one-texel-bordered region.
pub open spec fn blit_clamped_partial(
    d0: Seq<u8>,
    stride: int,
    rx: int,
    ry: int,
    src: Seq<u8>,
    base: int,
    tw: int,
    th: int,
    rows: int,
    cols: int,
) -> Seq<u8> {
    Seq::new(
        d0.len(),
        |i: int|
            {
                let x = i % stride;
                let y = i / stride;
                if rx - 1 <= x < rx - 1 + tw + 2 && ry - 1 <= y < ry - 1 + rows {
                    src[base + clampi(x - rx, tw) + clampi(y - ry, th) * tw]
                } else if y == ry - 1 + rows && rx - 1 <= x < rx - 1 + cols {
                    src[base + clampi(x - rx, tw) + clampi(y - ry, th) * tw]
                } else {
                    d0[i]
                }
            },
    )
}

/// Pixels after copying a `tw` by `th` lightmap tile to rect origin
/// `(rx, ry)` with a one-texel edge-clamped border on every side.
pub open spec fn spec_blit_clamped(
    d0: Seq<u8>,
    stride: int,
    rx: int,
    ry: int,
    src: Seq<u8>,
    base: int,
    tw: int,
    th: int,
) -> Seq<u8> {
    blit_clamped_partial(d0, stride, rx, ry, src, base, tw, th, th + 2, 0)
}

/// Copy the `tw` by `th` lightmap tile at `base` of `src` to rect origin
/// `(rx, ry)`, writing one extra texel on every side with the source index
/// clamped to the tile, so bilinear sampling at the tile border never
/// bleeds a neighboring tile in.
pub fn blit_clamped(
    dst: &mut Vec<u8>,
    stride: usize,
    rx: usize,
    ry: usize,
    src: &Vec<u8>,
    base: usize,
    tw: usize,
    th: usize,
)
    requires
        1 <= stride,
        1 <= rx,
        1 <= ry,
        1 <= tw <= 0x10000,
        1 <= th <= 0x10000,
        rx - 1 + tw + 2 <= stride,
        (ry + th) * stride + stride <= old(dst).len(),
        base + tw * th <= src.len(),
    ensures
        final(dst)@ == spec_blit_clamped(
            old(dst)@,
            stride as int,
            rx as int,
            ry as int,
            src@,
            base as int,
            tw as int,
            th as int,
        ),
{
    let ghost d0 = dst@;
    let ghost st = stride as int;
    let ghost rxi = rx as int;
    let ghost ryi = ry as int;
    let ghost twi = tw as int;
    let ghost thi = th as int;
    let ghost bi = base as int;
    let mut iy: usize = 0;
    proof {
        assert(dst@ =~= blit_clamped_partial(d0, st, rxi, ryi, src@, bi, twi, thi, 0, 0));
    }
    while iy < th + 2
        invariant
            iy <= th + 2,
            1 <= stride,
            1 <= rx,
            1 <= ry,
            1 <= tw <= 0x10000,
            1 <= th <= 0x10000,
            rx - 1 + tw + 2 <= stride,
            (ry + th) * stride + stride <= d0.len(),
            base + tw * th <= src.len(),
            dst@.len() == d0.len(),
            st == stride as int,
            rxi == rx as int,
            ryi == ry as int,
            twi == tw as int,
            thi == th as int,
            bi == base as int,
            dst@ == blit_clamped_partial(d0, st, rxi, ryi, src@, bi, twi, thi, iy as int, 0),
        decreases th + 2 - iy,
    {
        proof {
            assert(dst.len() == dst@.len());
            assert(src.len() == src@.len());
            lemma_mul_inequality(ryi - 1 + iy, ryi + thi, st);
            lemma_mul_nonnegative(ryi - 1 + iy, st);
            assert(ryi - 1 + iy <= (ryi + thi) * st) by (nonlinear_arith)
                requires
                    1 <= st,
                    1 <= ryi,
                    0 <= iy,
                    iy <= thi + 1,
                    1 <= thi,
            {
            }
        }
        let row_base = (ry - 1 + iy) * stride;
        let sy = if iy == 0 {
            0
        } else if iy >= th + 1 {
            th - 1
        } else {
            iy - 1
        };
        proof {
            assert(sy == clampi(iy as int - 1, thi));
            lemma_mul_nonnegative(sy as int, twi);
            lemma_mul_inequality(sy as int + 1, thi, twi);
            vstd::arithmetic::mul::lemma_mul_is_distributive_add_other_way(twi, sy as int, 1);
            vstd::arithmetic::mul::lemma_mul_is_commutative(thi, twi);
        }
        let src_row = base + sy * tw;
        let mut ix: usize = 0;
        while ix < tw + 2
            invariant
                ix <= tw + 2,
                iy < th + 2,
                1 <= stride,
                1 <= rx,
                1 <= ry,
                1 <= tw <= 0x10000,
                1 <= th <= 0x10000,
                rx - 1 + tw + 2 <= stride,
                row_base == (ry - 1 + iy) * stride,
                row_base + stride <= d0.len(),
                sy == clampi(iy as int - 1, thi),
                src_row == base + sy * tw,
                src_row + tw <= src@.len(),
                base + tw * th <= src@.len(),
                dst@.len() == d0.len(),
                st == stride as int,
                rxi == rx as int,
                ryi == ry as int,
                twi == tw as int,
                thi == th as int,
                bi == base as int,
                dst@ == blit_clamped_partial(
                    d0,
                    st,
                    rxi,
                    ryi,
                    src@,
                    bi,
                    twi,
                    thi,
                    iy as int,
                    ix as int,
                ),
            decreases tw + 2 - ix,
        {
            proof {
                assert(dst.len() == dst@.len());
                assert(src.len() == src@.len());
            }
            let sx = if ix == 0 {
                0
            } else if ix >= tw + 1 {
                tw - 1
            } else {
                ix - 1
            };
            proof {
                assert(sx == clampi(ix as int - 1, twi));
            }
            let di = row_base + (rx - 1) + ix;
            dst.set(di, src[src_row + sx]);
            ix = ix + 1;
            proof {
                lemma_pixel_index(rxi - 1 + ix - 1, ryi - 1 + iy, st);
                let target = blit_clamped_partial(
                    d0,
                    st,
                    rxi,
                    ryi,
                    src@,
                    bi,
                    twi,
                    thi,
                    iy as int,
                    ix as int,
                );
                assert forall|i: int| 0 <= i < d0.len() implies dst@[i] == target[i] by {
                    lemma_fundamental_div_mod(i, st);
                    vstd::arithmetic::div_mod::lemma_mod_pos_bound(i, st);
                    vstd::arithmetic::div_mod::lemma_div_pos_is_pos(i, st);
                    if i != di && i % st == rxi - 1 + ix - 1 && i / st == ryi - 1 + iy {
                        assert(i == di) by (nonlinear_arith)
                            requires
                                i == st * (i / st) + i % st,
                                i % st == rxi - 1 + ix - 1,
                                i / st == ryi - 1 + iy,
                                di == (rxi - 1 + ix - 1) + (ryi - 1 + iy) * st,
                        {
                        }
                    }
                }
                assert(dst@ =~= target);
            }
        }
        iy = iy + 1;
        proof {
            let target = blit_clamped_partial(d0, st, rxi, ryi, src@, bi, twi, thi, iy as int, 0);
            assert forall|i: int| 0 <= i < d0.len() implies dst@[i] == target[i] by {
                vstd::arithmetic::div_mod::lemma_mod_pos_bound(i, st);
                vstd::arithmetic::div_mod::lemma_div_pos_is_pos(i, st);
            }
            assert(dst@ =~= target);
        }
    }
}

/// Law (lightmap bleed): after a clamped tile copy, the border texel
/// outside each tile corner repeats the tile's corner texel, and the tile
/// interior is copied exactly.
pub proof fn lemma_bleed_clamp(
    d0: Seq<u8>,
    stride: int,
    rx: int,
    ry: int,
    src: Seq<u8>,
    base: int,
    tw: int,
    th: int,
)
    requires
        1 <= stride,
        1 <= rx,
        1 <= ry,
        1 <= tw,
        1 <= th,
        rx - 1 + tw + 2 <= stride,
        (ry + th) * stride + stride <= d0.len(),
        base + tw * th <= src.len(),
    ensures
        ({
            let out = spec_blit_clamped(d0, stride, rx, ry, src, base, tw, th);
            &&& out[(rx - 1) + (ry - 1) * stride] == src[base]
            &&& out[(rx + tw) + (ry + th) * stride] == src[base + (tw - 1) + (th - 1) * tw]
            &&& forall|ix: int, iy: int|
                0 <= ix < tw && 0 <= iy < th ==> #[trigger] out[(rx + ix) + (ry + iy) * stride]
                    == src[base + ix + iy * tw]
        }),
{
    let out = spec_blit_clamped(d0, stride, rx, ry, src, base, tw, th);
    lemma_pixel_index(rx - 1, ry - 1, stride);
    lemma_mul_inequality(ry - 1, ry + th, stride);
    lemma_mul_nonnegative(ry - 1, stride);
    assert(out[(rx - 1) + (ry - 1) * stride] == src[base]);
    lemma_pixel_index(rx + tw, ry + th, stride);
    assert(out[(rx + tw) + (ry + th) * stride] == src[base + (tw - 1) + (th - 1) * tw]);
    assert forall|ix: int, iy: int| 0 <= ix < tw && 0 <= iy < th implies #[trigger] out[(rx + ix)
        + (ry + iy) * stride] == src[base + ix + iy * tw] by {
        lemma_pixel_index(rx + ix, ry + iy, stride);
        lemma_mul_inequality(ry + iy, ry + th, stride);
        lemma_mul_nonnegative(ry + iy, stride);
    }
}

} // verus!

verus! {

/// A coordinate triple within `bound` on every axis.
pub open spec fn vec3_bounded(v: Vec3, bound: int) -> bool {
    &&& -bound <= v.x <= bound
    &&& -bound <= v.y <= bound
    &&& -bound <= v.z <= bound
}

/// A texture slot is either unused or consistent: its id is its index,
/// its dimensions are positive and fit an atlas coordinate, and each mip
/// picture has the scaled-down dimensions and exactly its pixels.
pub open spec fn tex_ok_for_bake(t: Texture, idx: int) -> bool {
    t.id == -1 || {
        &&& t.id == idx
        &&& 1 <= t.width <= 0x7FFF
        &&& 1 <= t.height <= 0x7FFF
        &&& forall|mip: int|
            0 <= mip < 4 ==> {
                &&& (#[trigger] t.pictures@[mip]).width == t.width as int / mip_div(mip)
                &&& t.pictures@[mip].height == t.height as int / mip_div(mip)
                &&& t.pictures@[mip].data@.len() == (t.width as int / mip_div(mip)) * (
                t.height as int / mip_div(mip))
            }
    }
}

/// A face's references stay inside the level and it has at least one edge.
pub open spec fn face_ok(b: BspFile, f: Face) -> bool {
    &&& f.texture_info < b.texture_info@.len()
    &&& f.ledges_start + f.ledges_count <= b.ledges@.len()
    &&& 1 <= f.ledges_count <= 0xFFFF
}

/// The level invariant the baker relies on: indices in range, world
/// coordinates and texture projections bounded so that all texture-space
/// arithmetic stays well inside 64 bits.
pub open spec fn level_wf(b: BspFile) -> bool {
    &&& b.ledges@.len() <= 0x0800_0000
    &&& b.edges@.len() <= 0x0100_0000
    &&& b.textures@.len() <= 0x7FFF_FFFF
    &&& forall|i: int|
        0 <= i < b.edges@.len() ==> vec3_bounded((#[trigger] b.edges@[i]).0, 0x10_0000)
            && vec3_bounded(b.edges@[i].1, 0x10_0000)
    &&& forall|i: int|
        0 <= i < b.ledges@.len() ==> -(b.edges@.len() as int) < ((#[trigger] b.ledges@[i]) as int)
            && (b.ledges@[i] as int) < b.edges@.len() as int
    &&& forall|i: int|
        0 <= i < b.texture_info@.len() ==> {
            let ti = #[trigger] b.texture_info@[i];
            &&& vec3_bounded(ti.vector_s, 0x400)
            &&& vec3_bounded(ti.vector_t, 0x400)
            &&& -0x4000_0000 <= ti.dist_s <= 0x4000_0000
            &&& -0x4000_0000 <= ti.dist_t <= 0x4000_0000
            &&& ti.texture < b.textures@.len()
        }
    &&& forall|i: int| 0 <= i < b.faces@.len() ==> face_ok(b, #[trigger] b.faces@[i])
    &&& forall|i: int| 0 <= i < b.textures@.len() ==> tex_ok_for_bake(#[trigger] b.textures@[i], i)
    &&& forall|i: int|
        0 <= i < b.models@.len() ==> (#[trigger] b.models@[i]).faces_start
            + b.models@[i].faces_count <= b.faces@.len() && vec3_bounded(
            b.models@[i].origin,
            0x10_0000,
        )
}

/// Dot product of two coordinate triples.
pub open spec fn dots(v: Vec3, w: Vec3) -> int {
    v.x * w.x + v.y * w.y + v.z * w.z
}

/// Horizontal texture-space projection of a point.
pub open spec fn val_s(v: Vec3, ti: TextureInfo) -> int {
    dots(v, ti.vector_s) + ti.dist_s
}

/// Vertical texture-space projection of a point.
pub open spec fn val_t(v: Vec3, ti: TextureInfo) -> int {
    dots(v, ti.vector_t) + ti.dist_t
}

/// The vertex a ledge contributes to the face's texture-space bounds: the
/// edge's second endpoint when the ledge is negative, its first otherwise.
pub open spec fn face_vert(b: BspFile, f: Face, k: int) -> Vec3 {
    let l = b.ledges@[f.ledges_start + k] as int;
    if l < 0 {
        b.edges@[-l].1
    } else {
        b.edges@[l].0
    }
}

/// Truncating division, the semantics the centroid mean uses.
pub open spec fn tdiv(a: int, d: int) -> int {
    if a >= 0 {
        a / d
    } else {
        -((-a) / d)
    }
}

/// Minimum `s` projection over the face's first `n` ledge vertices.
pub open spec fn min_val_s(b: BspFile, f: Face, n: int) -> int
    decreases n,
{
    let ti = b.texture_info@[f.texture_info as int];
    if n <= 1 {
        val_s(face_vert(b, f, 0), ti)
    } else {
        vstd::math::min(min_val_s(b, f, n - 1), val_s(face_vert(b, f, n - 1), ti))
    }
}

/// Maximum `s` projection over the face's first `n` ledge vertices.
pub open spec fn max_val_s(b: BspFile, f: Face, n: int) -> int
    decreases n,
{
    let ti = b.texture_info@[f.texture_info as int];
    if n <= 1 {
        val_s(face_vert(b, f, 0), ti)
    } else {
        vstd::math::max(max_val_s(b, f, n - 1), val_s(face_vert(b, f, n - 1), ti))
    }
}

/// Minimum `t` projection over the face's first `n` ledge vertices.
pub open spec fn min_val_t(b: BspFile, f: Face, n: int) -> int
    decreases n,
{
    let ti = b.texture_info@[f.texture_info as int];
    if n <= 1 {
        val_t(face_vert(b, f, 0), ti)
    } else {
        vstd::math::min(min_val_t(b, f, n - 1), val_t(face_vert(b, f, n - 1), ti))
    }
}

/// Maximum `t` projection over the face's first `n` ledge vertices.
pub open spec fn max_val_t(b: BspFile, f: Face, n: int) -> int
    decreases n,
{
    let ti = b.texture_info@[f.texture_info as int];
    if n <= 1 {
        val_t(face_vert(b, f, 0), ti)
    } else {
        vstd::math::max(max_val_t(b, f, n - 1), val_t(face_vert(b, f, n - 1), ti))
    }
}

/// All projections are bounded by the level invariant.
proof fn lemma_val_bounded(v: Vec3, ti: TextureInfo)
    requires
        vec3_bounded(v, 0x10_0000),
        vec3_bounded(ti.vector_s, 0x400),
        vec3_bounded(ti.vector_t, 0x400),
        -0x4000_0000 <= ti.dist_s <= 0x4000_0000,
        -0x4000_0000 <= ti.dist_t <= 0x4000_0000,
    ensures
        -0x2_0000_0000 <= val_s(v, ti) <= 0x2_0000_0000,
        -0x2_0000_0000 <= val_t(v, ti) <= 0x2_0000_0000,
{
    lemma_product_bounded(v.x as int, ti.vector_s.x as int);
    lemma_product_bounded(v.y as int, ti.vector_s.y as int);
    lemma_product_bounded(v.z as int, ti.vector_s.z as int);
    lemma_product_bounded(v.x as int, ti.vector_t.x as int);
    lemma_product_bounded(v.y as int, ti.vector_t.y as int);
    lemma_product_bounded(v.z as int, ti.vector_t.z as int);
}

/// Product of a bounded coordinate and a bounded projection component.
proof fn lemma_product_bounded(a: int, c: int)
    requires
        -0x10_0000 <= a <= 0x10_0000,
        -0x400 <= c <= 0x400,
    ensures
        -0x4000_0000 <= a * c <= 0x4000_0000,
{
    assert(-0x4000_0000 <= a * c <= 0x4000_0000) by (nonlinear_arith)
        requires
            -0x10_0000 <= a <= 0x10_0000,
            -0x400 <= c <= 0x400,
    {
    }
}

/// The four projection folds stay bounded.
proof fn lemma_extents_bounded(b: BspFile, f: Face, n: int)
    requires
        level_wf(b),
        f.texture_info < b.texture_info@.len(),
        f.ledges_start + f.ledges_count <= b.ledges@.len(),
        1 <= n <= f.ledges_count,
    ensures
        -0x2_0000_0000 <= min_val_s(b, f, n) <= 0x2_0000_0000,
        -0x2_0000_0000 <= max_val_s(b, f, n) <= 0x2_0000_0000,
        -0x2_0000_0000 <= min_val_t(b, f, n) <= 0x2_0000_0000,
        -0x2_0000_0000 <= max_val_t(b, f, n) <= 0x2_0000_0000,
    decreases n,
{
    let ti = b.texture_info@[f.texture_info as int];
    lemma_face_vert_bounded(b, f, n - 1);
    lemma_val_bounded(face_vert(b, f, n - 1), ti);
    if n > 1 {
        lemma_extents_bounded(b, f, n - 1);
    } else {
        lemma_face_vert_bounded(b, f, 0);
        lemma_val_bounded(face_vert(b, f, 0), ti);
    }
}

/// Each ledge vertex of a well-formed face is a bounded level vertex.
proof fn lemma_face_vert_bounded(b: BspFile, f: Face, k: int)
    requires
        level_wf(b),
        f.ledges_start + f.ledges_count <= b.ledges@.len(),
        0 <= k < f.ledges_count,
    ensures
        vec3_bounded(face_vert(b, f, k), 0x10_0000),
{
    let l = b.ledges@[f.ledges_start + k] as int;
    assert(-(b.edges@.len() as int) < l < b.edges@.len() as int);
}

/// Euclidean division by 16 of a possibly negative value.
fn floor16(v: i64) -> (r: i64)
    requires
        -0x40_0000_0000 <= v <= 0x40_0000_0000,
    ensures
        r as int == (v as int) / 16,
{
    if v >= 0 {
        ((v as u64) / 16) as i64
    } else {
        let a = (-v) as u64;
        let q = (a + 15) / 16;
        proof {
            lemma_fundamental_div_mod(a as int + 15, 16);
            let qq = (a as int + 15) / 16;
            let rr = (a as int + 15) % 16;
            lemma_fundamental_div_mod_converse(-(a as int), 16, -qq, 15 - rr);
        }
        -(q as i64)
    }
}

/// Truncating division of a possibly negative value by a positive one.
fn tdiv_i64(a: i64, d: u64) -> (r: i64)
    requires
        1 <= d <= 0x1_0000_0000,
        -0x40_0000_0000 <= a <= 0x40_0000_0000,
    ensures
        r as int == tdiv(a as int, d as int),
{
    if a >= 0 {
        ((a as u64) / d) as i64
    } else {
        proof {
            lemma_div_is_ordered(0, (-(a as int)), d as int);
            lemma_div_is_ordered((-(a as int)), 0x40_0000_0000, d as int);
        }
        -((((-a) as u64) / d) as i64)
    }
}

/// Texture-space extents of a face: the minimum and maximum `s` and `t`
/// projections over its ledge vertices.
pub fn face_extents(b: &BspFile, f: &Face) -> (r: (i64, i64, i64, i64))
    requires
        level_wf(*b),
        face_ok(*b, *f),
    ensures
        r.0 as int == min_val_s(*b, *f, f.ledges_count as int),
        r.1 as int == max_val_s(*b, *f, f.ledges_count as int),
        r.2 as int == min_val_t(*b, *f, f.ledges_count as int),
        r.3 as int == max_val_t(*b, *f, f.ledges_count as int),
        -0x2_0000_0000 <= r.0 <= 0x2_0000_0000,
        -0x2_0000_0000 <= r.1 <= 0x2_0000_0000,
        -0x2_0000_0000 <= r.2 <= 0x2_0000_0000,
        -0x2_0000_0000 <= r.3 <= 0x2_0000_0000,
{
    let ti = &b.texture_info[f.texture_info];
    let mut min_s: i64 = 0;
    let mut max_s: i64 = 0;
    let mut min_t: i64 = 0;
    let mut max_t: i64 = 0;
    let mut k: usize = 0;
    while k < f.ledges_count
        invariant
            level_wf(*b),
            face_ok(*b, *f),
            k <= f.ledges_count,
            *ti == b.texture_info@[f.texture_info as int],
            k >= 1 ==> min_s as int == min_val_s(*b, *f, k as int),
            k >= 1 ==> max_s as int == max_val_s(*b, *f, k as int),
            k >= 1 ==> min_t as int == min_val_t(*b, *f, k as int),
            k >= 1 ==> max_t as int == max_val_t(*b, *f, k as int),
            k >= 1 ==> -0x2_0000_0000 <= min_s <= 0x2_0000_0000,
            k >= 1 ==> -0x2_0000_0000 <= max_s <= 0x2_0000_0000,
            k >= 1 ==> -0x2_0000_0000 <= min_t <= 0x2_0000_0000,
            k >= 1 ==> -0x2_0000_0000 <= max_t <= 0x2_0000_0000,
        decreases f.ledges_count - k,
    {
        let l = b.ledges[f.ledges_start + k];
        proof {
            assert(-(b.edges@.len() as int) < (b.ledges@[f.ledges_start + k] as int) && (
            b.ledges@[f.ledges_start + k] as int) < b.edges@.len() as int);
            lemma_face_vert_bounded(*b, *f, k as int);
            lemma_val_bounded(face_vert(*b, *f, k as int), *ti);
        }
        let vert = if l < 0 {
            b.edges[(-l) as usize].1
        } else {
            b.edges[l as usize].0
        };
        proof {
            assert(vert == face_vert(*b, *f, k as int));
            lemma_product_bounded(vert.x as int, ti.vector_s.x as int);
            lemma_product_bounded(vert.y as int, ti.vector_s.y as int);
            lemma_product_bounded(vert.z as int, ti.vector_s.z as int);
            lemma_product_bounded(vert.x as int, ti.vector_t.x as int);
            lemma_product_bounded(vert.y as int, ti.vector_t.y as int);
            lemma_product_bounded(vert.z as int, ti.vector_t.z as int);
        }
        let vs = (vert.x as i64) * (ti.vector_s.x as i64) + (vert.y as i64) * (ti.vector_s.y as i64)
            + (vert.z as i64) * (ti.vector_s.z as i64) + (ti.dist_s as i64);
        let vt = (vert.x as i64) * (ti.vector_t.x as i64) + (vert.y as i64) * (ti.vector_t.y as i64)
            + (vert.z as i64) * (ti.vector_t.z as i64) + (ti.dist_t as i64);
        if k == 0 {
            min_s = vs;
            max_s = vs;
            min_t = vt;
            max_t = vt;
        } else {
            if vs < min_s {
                min_s = vs;
            }
            if vs > max_s {
                max_s = vs;
            }
            if vt < min_t {
                min_t = vt;
            }
            if vt > max_t {
                max_t = vt;
            }
        }
        k = k + 1;
    }
    (min_s, max_s, min_t, max_t)
}

/// A face enters the lightmap sizing pass: its texture is used and not the
/// invisible collision texture, it has lightmap data, and its lighting
/// type is not the no-lightmap sentinel.
pub open spec fn face_sized(b: BspFile, f: Face) -> bool {
    let ti = b.texture_info@[f.texture_info as int];
    let tex = b.textures@[ti.texture as int];
    &&& tex.id != -1
    &&& tex.name@ != "trigger"@
    &&& f.light_map != -1
    &&& f.type_light != 0xFF
}

/// The lightmap tile a sized face requests: its lightmap byte offset and
/// its texture-space bounding box in light texels (16 texture units each,
/// floor at the lower edge, ceiling plus one at the upper).
pub open spec fn face_tile(b: BspFile, f: Face) -> TSortable {
    let n = f.ledges_count as int;
    let ls = min_val_s(b, f, n) / 16;
    let lt = min_val_t(b, f, n) / 16;
    let lsm = (max_val_s(b, f, n) + 15) / 16;
    let ltm = (max_val_t(b, f, n) + 15) / 16;
    TSortable { idx: f.light_map, width: (lsm - ls + 1) as u32, height: (ltm - lt + 1) as u32 }
}

/// The tiles requested by the faces of the first `mi` models plus the
/// first `fj` faces of model `mi`, in face order.
pub open spec fn tiles_upto(b: BspFile, mi: int, fj: int) -> Seq<TSortable>
    decreases mi, fj + 1,
{
    if fj <= 0 {
        if mi <= 0 {
            Seq::empty()
        } else {
            tiles_upto(b, mi - 1, b.models@[mi - 1].faces_count as int)
        }
    } else {
        let f = b.faces@[b.models@[mi].faces_start + fj - 1];
        tiles_upto(b, mi, fj - 1) + if face_sized(b, f) {
            seq![face_tile(b, f)]
        } else {
            Seq::empty()
        }
    }
}

/// All lightmap tiles the level requests, in model and face order.
pub open spec fn spec_light_tiles(b: BspFile) -> Seq<TSortable> {
    tiles_upto(b, b.models@.len() as int, 0)
}

/// The minimum projection never exceeds the maximum.
proof fn lemma_min_le_max(b: BspFile, f: Face, n: int)
    requires
        1 <= n,
    ensures
        min_val_s(b, f, n) <= max_val_s(b, f, n),
        min_val_t(b, f, n) <= max_val_t(b, f, n),
    decreases n,
{
    if n > 1 {
        lemma_min_le_max(b, f, n - 1);
    }
}

/// The lightmap sizing pass: one tile request per face with a live
/// lightmap, sized from the face's texture-space bounding box.
pub fn lights_sizing(b: &BspFile) -> (r: Vec<TSortable>)
    requires
        level_wf(*b),
    ensures
        r@ == spec_light_tiles(*b),
{
    let mut out: Vec<TSortable> = Vec::new();
    let mut mi: usize = 0;
    let trigger_name: String = "trigger".to_owned();
    while mi < b.models.len()
        invariant
            level_wf(*b),
            mi <= b.models@.len(),
            trigger_name@ == "trigger"@,
            out@ == tiles_upto(*b, mi as int, 0),
        decreases b.models@.len() - mi,
    {
        let model = &b.models[mi];
        let mut fj: usize = 0;
        while fj < model.faces_count
            invariant
                level_wf(*b),
                mi < b.models@.len(),
                trigger_name@ == "trigger"@,
                *model == b.models@[mi as int],
                fj <= model.faces_count,
                out@ == tiles_upto(*b, mi as int, fj as int),
            decreases model.faces_count - fj,
        {
            proof {
                assert(b.models@[mi as int].faces_start + b.models@[mi as int].faces_count
                    <= b.faces@.len());
                assert(b.faces.len() == b.faces@.len());
            }
            let face = &b.faces[model.faces_start + fj];
            proof {
                assert(face_ok(*b, *face));
            }
            let ti = &b.texture_info[face.texture_info];
            let tex = &b.textures[ti.texture];
            let included = tex.id != -1 && !(tex.name == trigger_name) && face.light_map != -1
                && face.type_light != 0xFF;
            if included {
                let (min_s, max_s, min_t, max_t) = face_extents(b, face);
                let ls = floor16(min_s);
                let lt = floor16(min_t);
                let lsm = floor16(max_s + 15);
                let ltm = floor16(max_t + 15);
                proof {
                    let n = face.ledges_count as int;
                    lemma_min_le_max(*b, *face, n);
                    lemma_div_is_ordered(min_val_s(*b, *face, n), max_val_s(*b, *face, n) + 15, 16);
                    lemma_div_is_ordered(min_val_t(*b, *face, n), max_val_t(*b, *face, n) + 15, 16);
                    lemma_div_is_ordered(-0x2_0000_0000, min_val_s(*b, *face, n), 16);
                    lemma_div_is_ordered(-0x2_0000_0000, min_val_t(*b, *face, n), 16);
                    lemma_div_is_ordered(max_val_s(*b, *face, n) + 15, 0x2_0000_000Fint, 16);
                    lemma_div_is_ordered(max_val_t(*b, *face, n) + 15, 0x2_0000_000Fint, 16);
                }
                let width = (lsm - ls + 1) as u32;
                let height = (ltm - lt + 1) as u32;
                out.push(TSortable { idx: face.light_map, width, height });
            }
            fj = fj + 1;
            proof {
                assert(out@ =~= tiles_upto(*b, mi as int, fj as int));
            }
        }
        mi = mi + 1;
        proof {
            assert(tiles_upto(*b, mi as int, 0) == tiles_upto(
                *b,
                mi as int - 1,
                b.models@[mi as int - 1].faces_count as int,
            ));
        }
    }
    proof {
        assert(out@ == spec_light_tiles(*b));
    }
    out
}

} // verus!

verus! {

/// Why baking a level failed.
#[derive(Debug, Clone, Copy, PartialEq, Eq, Structural)]
pub enum BakeError {
    /// An atlas had no free rectangle large enough for a request.
    AtlasFull,
    /// A face's lightmap bytes lie outside the level's lightmap lump.
    LightmapOutOfRange,
}

/// The packing requests of the used textures, in directory order.
pub open spec fn spec_tex_list(ts: Seq<Texture>) -> Seq<TSortable>
    decreases ts.len(),
{
    if ts.len() == 0 {
        Seq::empty()
    } else {
        spec_tex_list(ts.drop_last()) + if ts.last().id != -1 {
            seq![
                (TSortable {
                    idx: ts.last().id,
                    width: ts.last().width,
                    height: ts.last().height,
                }),
            ]
        } else {
            Seq::empty()
        }
    }
}

/// A texture packing request is consistent with the texture table.
pub open spec fn tile_from_textures(t: TSortable, ts: Seq<Texture>) -> bool {
    &&& 0 <= t.idx < ts.len()
    &&& ts[t.idx as int].id == t.idx
    &&& ts[t.idx as int].width == t.width
    &&& ts[t.idx as int].height == t.height
}

/// Every request in the used-texture list comes from a used texture slot.
proof fn lemma_tex_list_members(ts: Seq<Texture>)
    requires
        forall|i: int| 0 <= i < ts.len() ==> tex_ok_for_bake(#[trigger] ts[i], i),
    ensures
        forall|k: int|
            0 <= k < spec_tex_list(ts).len() ==> tile_from_textures(
                #[trigger] spec_tex_list(ts)[k],
                ts,
            ),
    decreases ts.len(),
{
    if ts.len() > 0 {
        assert forall|i: int| 0 <= i < ts.len() - 1 implies tex_ok_for_bake(
            #[trigger] ts.drop_last()[i],
            i,
        ) by {
            assert(ts.drop_last()[i] == ts[i]);
        }
        lemma_tex_list_members(ts.drop_last());
        assert forall|k: int| 0 <= k < spec_tex_list(ts).len() implies tile_from_textures(
            #[trigger] spec_tex_list(ts)[k],
            ts,
        ) by {
            let inner = spec_tex_list(ts.drop_last());
            if k < inner.len() {
                assert(tile_from_textures(inner[k], ts.drop_last()));
                assert(ts.drop_last()[inner[k].idx as int] == ts[inner[k].idx as int]);
            } else {
                assert(ts.last().id != -1);
                assert(tex_ok_for_bake(ts[ts.len() - 1], ts.len() - 1));
            }
        }
    }
}

/// Sorting keeps every element an element of the input.
proof fn lemma_sort_desc_members(s: Seq<TSortable>)
    ensures
        forall|k: int|
            0 <= k < spec_sort_desc(s).len() ==> exists|j: int|
                0 <= j < s.len() && #[trigger] spec_sort_desc(s)[k] == s[j],
    decreases s.len(),
{
    if s.len() > 0 {
        lemma_sort_desc_members(s.drop_last());
        lemma_insert_desc_members(spec_sort_desc(s.drop_last()), s.last());
        let inner = spec_sort_desc(s.drop_last());
        let r = spec_insert_desc(inner, s.last());
        assert forall|k: int| 0 <= k < r.len() implies exists|j: int|
            0 <= j < s.len() && #[trigger] r[k] == s[j] by {
            if r[k] == s.last() {
                assert(r[k] == s[s.len() - 1]);
            } else {
                assert(exists|m: int| 0 <= m < inner.len() && r[k] == inner[m]);
                let m = choose|m: int| 0 <= m < inner.len() && r[k] == inner[m];
                let j = choose|j: int| 0 <= j < s.len() - 1 && inner[m] == s.drop_last()[j];
                assert(r[k] == s[j]);
            }
        }
    }
}

/// `a/d + b/d <= (a+b)/d` for nonnegative values.
proof fn lemma_div_superadd(a: int, b: int, d: int)
    requires
        0 <= a,
        0 <= b,
        1 <= d,
    ensures
        a / d + b / d <= (a + b) / d,
{
    lemma_fundamental_div_mod(a, d);
    lemma_fundamental_div_mod(b, d);
    let q = a / d + b / d;
    let r = a % d + b % d;
    assert(a + b == q * d + r) by (nonlinear_arith)
        requires
            a == d * (a / d) + a % d,
            b == d * (b / d) + b % d,
            q == a / d + b / d,
            r == a % d + b % d,
    {
    }
    if r < d {
        lemma_fundamental_div_mod_converse(a + b, d, q, r);
    } else {
        assert(a + b == (q + 1) * d + (r - d)) by (nonlinear_arith)
            requires
                a + b == q * d + r,
        {
        }
        lemma_fundamental_div_mod_converse(a + b, d, q + 1, r - d);
    }
}

/// Abstract state of the texture packing pass: the atlas, the rectangle
/// assigned to each texture slot, and the three mip pixel buffers.
#[verifier::ext_equal]
pub ghost struct TexPackState {
    pub atlas: AtlasModel,
    pub rects: Seq<Rect>,
    pub bufs: Seq<Seq<u8>>,
}

/// Initial texture packing state: an empty unpadded atlas, zero rects,
/// three blank mip buffers.
pub open spec fn tex_pack_init(n: int) -> TexPackState {
    TexPackState {
        atlas: AtlasModel {
            free: seq![
                (Rect { x: 0, y: 0, width: ATLAS_SIZE as i32, height: ATLAS_SIZE as i32 }),
            ],
            placed: Seq::empty(),
            padding: 0,
            width: ATLAS_SIZE as int,
            height: ATLAS_SIZE as int,
        },
        rects: Seq::new(n as nat, |i: int| Rect { x: 0, y: 0, width: 0, height: 0 }),
        bufs: Seq::new(
            3,
            |mip: int|
                Seq::new(
                    (((ATLAS_SIZE as int) / mip_div(mip)) * ((ATLAS_SIZE as int) / mip_div(
                        mip,
                    ))) as nat,
                    |i: int| 0u8,
                ),
        ),
    }
}

/// Place one texture request: find a rectangle, record it in the slot
/// table, and copy each of the first three mip pictures into its mip
/// buffer at the placed position scaled down by the mip level.
pub open spec fn spec_place_texture(st: TexPackState, ts: Seq<Texture>, t: TSortable) -> Option<
    TexPackState,
> {
    match spec_find_rect(st.atlas, t.width as int, t.height as int) {
        None => None,
        Some(rect) => {
            let tex = ts[t.idx as int];
            Some(
                TexPackState {
                    atlas: spec_find_state(st.atlas, t.width as int, t.height as int),
                    rects: st.rects.update(t.idx as int, rect),
                    bufs: Seq::new(
                        3,
                        |mip: int|
                            spec_blit(
                                st.bufs[mip],
                                (ATLAS_SIZE as int) / mip_div(mip),
                                rect.x as int / mip_div(mip),
                                rect.y as int / mip_div(mip),
                                tex.pictures@[mip].data@,
                                tex.width as int / mip_div(mip),
                                tex.height as int / mip_div(mip),
                            ),
                    ),
                },
            )
        },
    }
}

/// Texture packing state after the first `n` sorted requests.
pub open spec fn spec_pack_fold(ts: Seq<Texture>, sorted: Seq<TSortable>, n: int) -> Option<
    TexPackState,
> 
    decreases n,
{
    if n <= 0 {
        Some(tex_pack_init(ts.len() as int))
    } else {
        match spec_pack_fold(ts, sorted, n - 1) {
            None => None,
            Some(st) => spec_place_texture(st, ts, sorted[n - 1]),
        }
    }
}

/// A failed fold stays failed.
proof fn lemma_pack_fold_none(ts: Seq<Texture>, sorted: Seq<TSortable>, n: int, m: int)
    requires
        0 <= n <= m,
        spec_pack_fold(ts, sorted, n) is None,
    ensures
        spec_pack_fold(ts, sorted, m) is None,
    decreases m - n,
{
    if n < m {
        lemma_pack_fold_none(ts, sorted, n + 1, m);
    }
}

} // verus!

verus! {

/// Pack every used texture into a fresh unpadded atlas, largest first,
/// and copy its first three mip pictures into the three mip pixel
/// buffers. Fails exactly when some request finds no free rectangle.
pub fn pack_textures(textures: &Vec<Texture>) -> (r: Result<(Vec<Rect>, Vec<Vec<u8>>), BakeError>)
    requires
        forall|i: int| 0 <= i < textures@.len() ==> tex_ok_for_bake(#[trigger] textures@[i], i),
    ensures
        ({
            let sorted = spec_sort_desc(spec_tex_list(textures@));
            let outcome = spec_pack_fold(textures@, sorted, sorted.len() as int);
            match r {
                Ok((rects, bufs)) => {
                    &&& outcome is Some
                    &&& rects@ == outcome.unwrap().rects
                    &&& bufs@.len() == 3
                    &&& forall|mip: int| 0 <= mip < 3 ==> (#[trigger] bufs@[mip])@ == outcome.unwrap().bufs[mip]
                    &&& outcome.unwrap().atlas.wf()
                },
                Err(e) => outcome is None && e == BakeError::AtlasFull,
            }
        }),
{
    let ghost ts = textures@;
    let mut list: Vec<TSortable> = Vec::new();
    let mut i: usize = 0;
    proof {
        assert(ts.take(0) =~= Seq::<Texture>::empty());
    }
    while i < textures.len()
        invariant
            i <= ts.len(),
            textures@ == ts,
            forall|k: int| 0 <= k < ts.len() ==> tex_ok_for_bake(#[trigger] ts[k], k),
            list@ == spec_tex_list(ts.take(i as int)),
        decreases ts.len() - i,
    {
        let t = &textures[i];
        proof {
            assert(tex_ok_for_bake(ts[i as int], i as int));
            assert(ts.take(i as int + 1).drop_last() =~= ts.take(i as int));
            assert(ts.take(i as int + 1).last() == ts[i as int]);
        }
        if t.id != -1 {
            list.push(TSortable { idx: t.id, width: t.width, height: t.height });
        }
        i = i + 1;
        proof {
            assert(list@ =~= spec_tex_list(ts.take(i as int)));
        }
    }
    proof {
        assert(ts.take(ts.len() as int) =~= ts);
        lemma_tex_list_members(ts);
        lemma_sort_desc_members(spec_tex_list(ts));
    }
    let sorted = sort_tiles(list);
    let ghost sseq = sorted@;

    let mut atlas = TextureAtlas::new(ATLAS_SIZE as i32, ATLAS_SIZE as i32);
    let mut rects: Vec<Rect> = Vec::new();
    let mut j: usize = 0;
    while j < textures.len()
        invariant
            j <= ts.len(),
            textures@ == ts,
            rects@ =~= Seq::new(j as nat, |k: int| Rect { x: 0, y: 0, width: 0, height: 0 }),
        decreases ts.len() - j,
    {
        rects.push(Rect { x: 0, y: 0, width: 0, height: 0 });
        j = j + 1;
        proof {
            assert(rects@ =~= Seq::new(j as nat, |k: int| Rect { x: 0, y: 0, width: 0, height: 0 }));
        }
    }
    let mut data0 = vec![0u8; 1024 * 1024];
    let mut data1 = vec![0u8; 512 * 512];
    let mut data2 = vec![0u8; 256 * 256];
    proof {
        assert(atlas@ =~= tex_pack_init(ts.len() as int).atlas);
        assert(rects@ =~= tex_pack_init(ts.len() as int).rects);
        assert(data0@ =~= tex_pack_init(ts.len() as int).bufs[0]);
        assert(data1@ =~= tex_pack_init(ts.len() as int).bufs[1]);
        assert(data2@ =~= tex_pack_init(ts.len() as int).bufs[2]);
    }
    let mut n: usize = 0;
    while n < sorted.len()
        invariant
            n <= sseq.len(),
            sorted@ == sseq,
            sseq == spec_sort_desc(spec_tex_list(ts)),
            textures@ == ts,
            forall|k: int| 0 <= k < ts.len() ==> tex_ok_for_bake(#[trigger] ts[k], k),
            forall|k: int|
                0 <= k < sseq.len() ==> tile_from_textures(#[trigger] sseq[k], ts),
            spec_pack_fold(ts, sseq, n as int) is Some,
            ({
                let st = spec_pack_fold(ts, sseq, n as int).unwrap();
                &&& atlas@ == st.atlas
                &&& rects@ == st.rects
                &&& data0@ == st.bufs[0]
                &&& data1@ == st.bufs[1]
                &&& data2@ == st.bufs[2]
            }),
            atlas@.wf(),
            atlas@.padding == 0,
            atlas@.width == ATLAS_SIZE,
            atlas@.height == ATLAS_SIZE,
            data0@.len() == 1024 * 1024,
            data1@.len() == 512 * 512,
            data2@.len() == 256 * 256,
            rects@.len() == ts.len(),
        decreases sseq.len() - n,
    {
        let t = sorted[n];
        proof {
            assert(tile_from_textures(sseq[n as int], ts));
            assert(tex_ok_for_bake(ts[t.idx as int], t.idx as int));
        }
        let rect_opt = atlas.find(t.width as i32, t.height as i32);
        let rect = match rect_opt {
            Some(rect) => rect,
            None => {
                proof {
                    let st = spec_pack_fold(ts, sseq, n as int).unwrap();
                    assert(spec_place_texture(st, ts, sseq[n as int]) is None);
                    assert(spec_pack_fold(ts, sseq, n as int + 1) is None);
                    lemma_pack_fold_none(ts, sseq, n as int + 1, sseq.len() as int);
                }
                return Err(BakeError::AtlasFull);
            },
        };
        let tex = &textures[t.idx as usize];
        proof {
            assert(rect_within(
                crate::atlas::inflated(rect, 0),
                ATLAS_SIZE as int,
                ATLAS_SIZE as int,
            ));
            assert(crate::atlas::inflated(rect, 0) == rect);
        }
        let mip0 = &tex.pictures[0];
        let mip1 = &tex.pictures[1];
        let mip2 = &tex.pictures[2];
        proof {
            lemma_div_superadd(rect.x as int, rect.width as int, 1);
            lemma_div_superadd(rect.y as int, rect.height as int, 1);
            lemma_div_superadd(rect.x as int, rect.width as int, 2);
            lemma_div_superadd(rect.y as int, rect.height as int, 2);
            lemma_div_superadd(rect.x as int, rect.width as int, 4);
            lemma_div_superadd(rect.y as int, rect.height as int, 4);
            lemma_blit_row_bound(rect.y as int, rect.height as int, 1024);
            lemma_blit_row_bound(rect.y as int / 2, rect.height as int / 2, 512);
            lemma_blit_row_bound(rect.y as int / 4, rect.height as int / 4, 256);
        }
        blit(
            &mut data0,
            1024,
            rect.x as usize,
            rect.y as usize,
            &mip0.data,
            (t.width as usize) / 1,
            (t.height as usize) / 1,
        );
        blit(
            &mut data1,
            512,
            (rect.x as usize) / 2,
            (rect.y as usize) / 2,
            &mip1.data,
            (t.width as usize) / 2,
            (t.height as usize) / 2,
        );
        blit(
            &mut data2,
            256,
            (rect.x as usize) / 4,
            (rect.y as usize) / 4,
            &mip2.data,
            (t.width as usize) / 4,
            (t.height as usize) / 4,
        );
        rects.set(t.idx as usize, rect);
        n = n + 1;
        proof {
            let st = spec_pack_fold(ts, sseq, n as int).unwrap();
            assert(data0@ =~= st.bufs[0]);
            assert(data1@ =~= st.bufs[1]);
            assert(data2@ =~= st.bufs[2]);
            assert(rects@ =~= st.rects);
        }
    }
    let mut bufs: Vec<Vec<u8>> = Vec::new();
    bufs.push(data0);
    bufs.push(data1);
    bufs.push(data2);
    proof {
        let st = spec_pack_fold(ts, sseq, sseq.len() as int).unwrap();
        assert forall|mip: int| 0 <= mip < 3 implies (#[trigger] bufs@[mip])@ == st.bufs[mip] by {}
    }
    Ok((rects, bufs))
}

/// Rows of a blit target stay inside a square mip buffer.
proof fn lemma_blit_row_bound(dy: int, sh: int, dim: int)
    requires
        1 <= dim,
        0 <= dy,
        0 <= sh,
        dy + sh <= dim,
    ensures
        sh >= 1 ==> (dy + sh - 1) * dim + dim <= dim * dim,
{
    if sh >= 1 {
        lemma_mul_inequality(dy + sh - 1, dim - 1, dim);
        vstd::arithmetic::mul::lemma_mul_is_distributive_sub_other_way(dim, dim, 1);
    }
}

} // verus!

verus! {

/// Last rectangle recorded for `key`, as a hash-map insert sequence would
/// leave it.
pub open spec fn spec_lookup(table: Seq<(i32, Rect)>, key: i32) -> Option<Rect>
    decreases table.len(),
{
    if table.len() == 0 {
        None
    } else if table.last().0 == key {
        Some(table.last().1)
    } else {
        spec_lookup(table.drop_last(), key)
    }
}

/// Find the rectangle packed for a lightmap offset: the most recently
/// recorded entry wins, as with repeated map insertion.
pub fn lookup_rect(table: &Vec<(i32, Rect)>, key: i32) -> (r: Option<Rect>)
    ensures
        r == spec_lookup(table@, key),
{
    let mut i: usize = table.len();
    proof {
        assert(table@.take(table@.len() as int) =~= table@);
    }
    while i > 0
        invariant
            i <= table@.len(),
            spec_lookup(table@, key) == spec_lookup(table@.take(i as int), key),
        decreases i,
    {
        let entry = table[i - 1];
        proof {
            assert(table@.take(i as int).last() == table@[i as int - 1]);
            assert(table@.take(i as int).drop_last() =~= table@.take(i as int - 1));
        }
        if entry.0 == key {
            return Some(entry.1);
        }
        i = i - 1;
    }
    proof {
        assert(table@.take(0) =~= Seq::<(i32, Rect)>::empty());
    }
    None
}

/// Abstract state of the lightmap packing pass: the padded atlas, the
/// offset-to-rectangle table, and the lightmap atlas pixels.
#[verifier::ext_equal]
pub ghost struct LightPackState {
    pub atlas: AtlasModel,
    pub table: Seq<(i32, Rect)>,
    pub buf: Seq<u8>,
}

/// Initial lightmap packing state: an empty atlas with a one-texel
/// padding border, no table entries, a blank pixel buffer.
pub open spec fn light_pack_init() -> LightPackState {
    LightPackState {
        atlas: AtlasModel {
            free: seq![
                (Rect { x: 0, y: 0, width: ATLAS_SIZE as i32, height: ATLAS_SIZE as i32 }),
            ],
            placed: Seq::empty(),
            padding: 1,
            width: ATLAS_SIZE as int,
            height: ATLAS_SIZE as int,
        },
        table: Seq::empty(),
        buf: Seq::new((ATLAS_SIZE * ATLAS_SIZE) as nat, |i: int| 0u8),
    }
}

/// Place one lightmap tile: find a padded rectangle, record it for the
/// tile's lightmap offset, and copy the tile's texels with the clamped
/// one-texel border.
pub open spec fn spec_place_tile(st: LightPackState, lm: Seq<u8>, t: TSortable) -> Result<
    LightPackState,
    BakeError,
> {
    match spec_find_rect(st.atlas, t.width as int, t.height as int) {
        None => Err(BakeError::AtlasFull),
        Some(rect) => {
            if t.idx < 0 || t.idx + t.width * t.height > lm.len() {
                Err(BakeError::LightmapOutOfRange)
            } else {
                Ok(
                    LightPackState {
                        atlas: spec_find_state(st.atlas, t.width as int, t.height as int),
                        table: st.table.push((t.idx, rect)),
                        buf: spec_blit_clamped(
                            st.buf,
                            ATLAS_SIZE as int,
                            rect.x as int,
                            rect.y as int,
                            lm,
                            t.idx as int,
                            t.width as int,
                            t.height as int,
                        ),
                    },
                )
            }
        },
    }
}

/// Lightmap packing state after the first `n` sorted tiles.
pub open spec fn spec_lights_fold(lm: Seq<u8>, sorted: Seq<TSortable>, n: int) -> Result<
    LightPackState,
    BakeError,
> 
    decreases n,
{
    if n <= 0 {
        Ok(light_pack_init())
    } else {
        match spec_lights_fold(lm, sorted, n - 1) {
            Err(e) => Err(e),
            Ok(st) => spec_place_tile(st, lm, sorted[n - 1]),
        }
    }
}

/// A failed lightmap fold stays failed.
proof fn lemma_lights_fold_err(lm: Seq<u8>, sorted: Seq<TSortable>, n: int, m: int)
    requires
        0 <= n <= m,
        spec_lights_fold(lm, sorted, n) is Err,
    ensures
        spec_lights_fold(lm, sorted, m) == spec_lights_fold(lm, sorted, n),
    decreases m - n,
{
    if n < m {
        lemma_lights_fold_err(lm, sorted, n + 1, m);
    }
}

/// Bounds of the rectangle a padded find returns: it keeps the padding
/// margin to every atlas edge.
proof fn lemma_padded_rect_bounds(m: AtlasModel, w: int, h: int)
    requires
        m.wf(),
        1 <= w,
        1 <= h,
        w + 2 * m.padding <= 0x8000,
        h + 2 * m.padding <= 0x8000,
        spec_find_rect(m, w, h) is Some,
    ensures
        ({
            let rect = spec_find_rect(m, w, h).unwrap();
            &&& m.padding <= rect.x
            &&& m.padding <= rect.y
            &&& rect.x + w + m.padding <= m.width
            &&& rect.y + h + m.padding <= m.height
            &&& rect.width == w
            &&& rect.height == h
        }),
{
    let wi = w + 2 * m.padding;
    let hi = h + 2 * m.padding;
    lemma_best_fit(m.free, wi, hi);
    let b = best_fit(m.free, wi, hi).unwrap();
    let f = m.free[b];
    assert(rect_within(f, m.width, m.height));
    assert(fits(f, wi, hi));
}

/// No rectangle fits a request wider or taller than the whole atlas.
proof fn lemma_oversize_no_fit(m: AtlasModel, w: int, h: int)
    requires
        m.wf(),
        w > m.width || h > m.height || w > 0x4000 || h > 0x4000,
        m.width <= 0x4000,
        m.height <= 0x4000,
        w >= 0,
        h >= 0,
    ensures
        spec_find_rect(m, w, h) is None,
{
    let wi = w + 2 * m.padding;
    let hi = h + 2 * m.padding;
    lemma_best_fit(m.free, wi, hi);
    if best_fit(m.free, wi, hi) is Some {
        let b = best_fit(m.free, wi, hi).unwrap();
        assert(rect_within(m.free[b], m.width, m.height));
        assert(false);
    }
}

/// Pack the sorted lightmap tiles into a fresh one-texel-padded atlas and
/// copy each tile's texels from the level's lightmap lump with an
/// edge-clamped border. Fails exactly when a tile finds no rectangle or
/// its texels lie outside the lump.
pub fn pack_lightmaps(tiles: &Vec<TSortable>, light_maps: &Vec<u8>) -> (r: Result<
    (Vec<(i32, Rect)>, Vec<u8>),
    BakeError,
>)
    requires
        forall|k: int|
            0 <= k < tiles@.len() ==> 1 <= (#[trigger] tiles@[k]).width && 1 <= tiles@[k].height,
    ensures
        ({
            let outcome = spec_lights_fold(light_maps@, tiles@, tiles@.len() as int);
            match r {
                Ok((table, buf)) => {
                    &&& outcome is Ok
                    &&& table@ == outcome.unwrap().table
                    &&& buf@ == outcome.unwrap().buf
                    &&& outcome.unwrap().atlas.wf()
                },
                Err(e) => outcome == Result::<LightPackState, BakeError>::Err(e),
            }
        }),
{
    let ghost lm = light_maps@;
    let ghost tseq = tiles@;
    let mut atlas = TextureAtlas::new_padded(ATLAS_SIZE as i32, ATLAS_SIZE as i32, 1);
    let mut table: Vec<(i32, Rect)> = Vec::new();
    let mut buf = vec![0u8; (ATLAS_SIZE * ATLAS_SIZE) as usize];
    proof {
        assert(atlas@ =~= light_pack_init().atlas);
        assert(table@ =~= light_pack_init().table);
        assert(buf@ =~= light_pack_init().buf);
    }
    let mut n: usize = 0;
    while n < tiles.len()
        invariant
            n <= tseq.len(),
            tiles@ == tseq,
            light_maps@ == lm,
            forall|k: int|
                0 <= k < tseq.len() ==> 1 <= (#[trigger] tseq[k]).width && 1 <= tseq[k].height,
            spec_lights_fold(lm, tseq, n as int) is Ok,
            ({
                let st = spec_lights_fold(lm, tseq, n as int).unwrap();
                &&& atlas@ == st.atlas
                &&& table@ == st.table
                &&& buf@ == st.buf
            }),
            atlas@.wf(),
            atlas@.padding == 1,
            atlas@.width == ATLAS_SIZE,
            atlas@.height == ATLAS_SIZE,
            buf@.len() == ATLAS_SIZE * ATLAS_SIZE,
        decreases tseq.len() - n,
    {
        let t = tiles[n];
        if t.width > 0x4000 || t.height > 0x4000 {
            proof {
                lemma_oversize_no_fit(atlas@, t.width as int, t.height as int);
                let st = spec_lights_fold(lm, tseq, n as int).unwrap();
                assert(spec_place_tile(st, lm, tseq[n as int]) == Result::<
                    LightPackState,
                    BakeError,
                >::Err(BakeError::AtlasFull));
                lemma_lights_fold_err(lm, tseq, n as int + 1, tseq.len() as int);
            }
            return Err(BakeError::AtlasFull);
        }
        let rect_opt = atlas.find(t.width as i32, t.height as i32);
        let rect = match rect_opt {
            Some(rect) => rect,
            None => {
                proof {
                    let st = spec_lights_fold(lm, tseq, n as int).unwrap();
                    assert(spec_place_tile(st, lm, tseq[n as int]) == Result::<
                        LightPackState,
                        BakeError,
                    >::Err(BakeError::AtlasFull));
                    lemma_lights_fold_err(lm, tseq, n as int + 1, tseq.len() as int);
                }
                return Err(BakeError::AtlasFull);
            },
        };
        proof {
            vstd::arithmetic::mul::lemma_mul_upper_bound(t.width as int, 0x4000, t.height as int, 0x4000);
            lemma_mul_nonnegative(t.width as int, t.height as int);
        }
        if t.idx < 0 || (t.idx as u64) + (t.width as u64) * (t.height as u64) > light_maps.len()
            as u64 {
            proof {
                let st = spec_lights_fold(lm, tseq, n as int).unwrap();
                assert(light_maps.len() == lm.len());
                assert(spec_place_tile(st, lm, tseq[n as int]) == Result::<
                    LightPackState,
                    BakeError,
                >::Err(BakeError::LightmapOutOfRange));
                lemma_lights_fold_err(lm, tseq, n as int + 1, tseq.len() as int);
            }
            return Err(BakeError::LightmapOutOfRange);
        }
        proof {
            assert(light_maps.len() == lm.len());
            let st = spec_lights_fold(lm, tseq, n as int).unwrap();
            lemma_padded_rect_bounds(st.atlas, t.width as int, t.height as int);
            assert(1 <= rect.x && 1 <= rect.y);
            assert(rect.x + t.width + 1 <= ATLAS_SIZE);
            assert(rect.y + t.height + 1 <= ATLAS_SIZE);
            lemma_clamped_row_bound(rect.y as int, t.height as int);
        }
        blit_clamped(
            &mut buf,
            ATLAS_SIZE as usize,
            rect.x as usize,
            rect.y as usize,
            light_maps,
            t.idx as usize,
            t.width as usize,
            t.height as usize,
        );
        table.push((t.idx, rect));
        n = n + 1;
        proof {
            let st = spec_lights_fold(lm, tseq, n as int).unwrap();
            assert(buf@ =~= st.buf);
            assert(table@ =~= st.table);
        }
    }
    Ok((table, buf))
}

/// The clamped copy's rows stay inside the square lightmap buffer.
proof fn lemma_clamped_row_bound(ry: int, th: int)
    requires
        1 <= ry,
        1 <= th,
        ry + th + 1 <= ATLAS_SIZE,
    ensures
        (ry + th) * (ATLAS_SIZE as int) + ATLAS_SIZE <= ATLAS_SIZE * ATLAS_SIZE,
{
    lemma_mul_inequality(ry + th, ATLAS_SIZE as int - 1, ATLAS_SIZE as int);
    vstd::arithmetic::mul::lemma_mul_is_distributive_sub_other_way(
        ATLAS_SIZE as int,
        ATLAS_SIZE as int,
        1,
    );
}

} // verus!

verus! {

/// The texture name marks a sky surface.
pub open spec fn name_is_sky(s: Seq<char>) -> bool {
    s.len() >= 3 && s[0] == 's' && s[1] == 'k' && s[2] == 'y'
}

/// The texture name marks an animated or fullbright surface.
pub open spec fn name_is_animated(s: Seq<char>) -> bool {
    s.len() >= 1 && (s[0] == '+' || s[0] == '*')
}

/// Saturate a texture-space value into a 16-bit vertex field.
pub open spec fn c16(v: int) -> i16 {
    if v < -32768 {
        -32768i16
    } else if v > 32767 {
        32767i16
    } else {
        v as i16
    }
}

/// Magnitude of a ledge: the edge index it refers to.
pub open spec fn iabs(l: int) -> int {
    if l < 0 {
        -l
    } else {
        l
    }
}

/// The `j`-th ledge of a face.
pub open spec fn ledge_at(b: BspFile, f: Face, j: int) -> int {
    b.ledges@[f.ledges_start + j] as int
}

/// First endpoint of the `j`-th directed boundary edge; the ledge's sign
/// selects the traversal direction.
pub open spec fn wedge_a(b: BspFile, f: Face, j: int) -> Vec3 {
    let l = ledge_at(b, f, j);
    let e = b.edges@[iabs(l)];
    if l >= 0 {
        e.1
    } else {
        e.0
    }
}

/// Second endpoint of the `j`-th directed boundary edge.
pub open spec fn wedge_b(b: BspFile, f: Face, j: int) -> Vec3 {
    let l = ledge_at(b, f, j);
    let e = b.edges@[iabs(l)];
    if l >= 0 {
        e.0
    } else {
        e.1
    }
}

/// Sum of the first `n` ledges' edge endpoint coordinates, both endpoints
/// of each edge, per axis.
pub open spec fn sum_edges(b: BspFile, f: Face, n: int) -> (int, int, int)
    decreases n,
{
    if n <= 0 {
        (0, 0, 0)
    } else {
        let prev = sum_edges(b, f, n - 1);
        let e = b.edges@[iabs(ledge_at(b, f, n - 1))];
        (prev.0 + e.0.x + e.1.x, prev.1 + e.0.y + e.1.y, prev.2 + e.0.z + e.1.z)
    }
}

/// The face's centroid: the truncated mean of all its edge endpoints.
pub open spec fn centroid(b: BspFile, f: Face) -> (int, int, int) {
    let n = f.ledges_count as int;
    let s = sum_edges(b, f, n);
    (tdiv(s.0, 2 * n), tdiv(s.1, 2 * n), tdiv(s.2, 2 * n))
}

/// The texture a face uses.
pub open spec fn face_tex(b: BspFile, f: Face) -> Texture {
    b.textures@[b.texture_info@[f.texture_info as int].texture as int]
}

/// Effective base light of a face: animated and fullbright textures force
/// it to 127.
pub open spec fn eff_base_light(b: BspFile, f: Face) -> u8 {
    if name_is_animated(face_tex(b, f).name@) {
        127u8
    } else {
        f.base_light
    }
}

/// Effective lighting type of a face: animated and fullbright textures
/// force the no-lightmap sentinel.
pub open spec fn eff_type_light(b: BspFile, f: Face) -> u8 {
    if name_is_animated(face_tex(b, f).name@) {
        0xFFu8
    } else {
        f.type_light
    }
}

/// The face samples the lightmap atlas: it is not fullbright, has
/// lightmap data, and a tile was packed for its lightmap offset.
pub open spec fn face_has_lm(b: BspFile, f: Face, table: Seq<(i32, Rect)>) -> bool {
    &&& eff_type_light(b, f) != 0xFF
    &&& f.light_map != -1
    &&& spec_lookup(table, f.light_map) is Some
}

/// The vertex emitted for world point `v` (before the model origin is
/// added) of a face.
pub open spec fn emit_vertex(
    b: BspFile,
    f: Face,
    trect: Rect,
    origin: Vec3,
    v: (int, int, int),
    table: Seq<(i32, Rect)>,
) -> Vertex {
    let ti = b.texture_info@[f.texture_info as int];
    let tex = face_tex(b, f);
    let a_s = v.0 * ti.vector_s.x + v.1 * ti.vector_s.y + v.2 * ti.vector_s.z + ti.dist_s;
    let a_t = v.0 * ti.vector_t.x + v.1 * ti.vector_t.y + v.2 * ti.vector_t.z + ti.dist_t;
    let el = eff_base_light(b, f);
    let n = f.ledges_count as int;
    Vertex {
        position: [
            (origin.x + v.0) as i32,
            (origin.y + v.1) as i32,
            (origin.z + v.2) as i32,
        ],
        tex: [trect.x as u16, trect.y as u16],
        tex_info: [c16(a_s), c16(a_t), tex.width as i16, tex.height as i16],
        light_info: if face_has_lm(b, f, table) {
            let tile = spec_lookup(table, f.light_map).unwrap();
            let l_s = min_val_s(b, f, n) / 16;
            let l_t = min_val_t(b, f, n) / 16;
            [c16(tile.x + a_s / 16 - l_s), c16(tile.y + a_t / 16 - l_t)]
        } else {
            [-1i16, -1i16]
        },
        light: if el == 255 {
            0u8
        } else {
            el
        },
        light_type: eff_type_light(b, f),
    }
}

/// The triangle fan a face emits: for each of its `n` directed boundary
/// edges, the edge's two endpoints and the face centroid, three vertices
/// per edge.
pub open spec fn face_verts(
    b: BspFile,
    f: Face,
    trect: Rect,
    origin: Vec3,
    table: Seq<(i32, Rect)>,
) -> Seq<Vertex> {
    Seq::new(
        (3 * f.ledges_count) as nat,
        |k: int|
            {
                let j = k / 3;
                let r = k % 3;
                let v = if r == 0 {
                    let a = wedge_a(b, f, j);
                    (a.x as int, a.y as int, a.z as int)
                } else if r == 1 {
                    let a = wedge_b(b, f, j);
                    (a.x as int, a.y as int, a.z as int)
                } else {
                    centroid(b, f)
                };
                emit_vertex(b, f, trect, origin, v, table)
            },
    )
}

/// World bounding box of the first `n` edges of a face, offset by the
/// model origin and folded into the accumulator pair.
pub open spec fn bbox_fold(
    b: BspFile,
    f: Face,
    origin: Vec3,
    lo: (int, int, int),
    hi: (int, int, int),
    n: int,
) -> ((int, int, int), (int, int, int))
    decreases n,
{
    if n <= 0 {
        (lo, hi)
    } else {
        let prev = bbox_fold(b, f, origin, lo, hi, n - 1);
        let e = b.edges@[iabs(ledge_at(b, f, n - 1))];
        let x0 = origin.x + e.0.x;
        let y0 = origin.y + e.0.y;
        let z0 = origin.z + e.0.z;
        let x1 = origin.x + e.1.x;
        let y1 = origin.y + e.1.y;
        let z1 = origin.z + e.1.z;
        (
            (
                vstd::math::min(prev.0.0, vstd::math::min(x0, x1)),
                vstd::math::min(prev.0.1, vstd::math::min(y0, y1)),
                vstd::math::min(prev.0.2, vstd::math::min(z0, z1)),
            ),
            (
                vstd::math::max(prev.1.0, vstd::math::max(x0, x1)),
                vstd::math::max(prev.1.1, vstd::math::max(y0, y1)),
                vstd::math::max(prev.1.2, vstd::math::max(z0, z1)),
            ),
        )
    }
}

/// Abstract state of the geometry emission pass: the opaque and sky
/// vertex streams, the sky bounding box, and the last sky texture seen.
#[verifier::ext_equal]
pub ghost struct EmitState {
    pub verts: Seq<Vertex>,
    pub sky: Seq<Vertex>,
    pub smin: (int, int, int),
    pub smax: (int, int, int),
    pub sky_tex: Option<i32>,
}

/// Initial emission state: empty streams, a bounding box collapsed at the
/// world origin, no sky texture.
pub open spec fn emit_init() -> EmitState {
    EmitState {
        verts: Seq::empty(),
        sky: Seq::empty(),
        smin: (0, 0, 0),
        smax: (0, 0, 0),
        sky_tex: None,
    }
}

/// What one face adds to the emission state: nothing when its texture is
/// unused or the invisible collision texture; otherwise its triangle fan,
/// appended to the sky stream (updating the sky bounding box and texture)
/// when its texture name starts with "sky", and to the opaque stream
/// otherwise.
pub open spec fn emit_face_step(
    st: EmitState,
    b: BspFile,
    f: Face,
    origin: Vec3,
    rects: Seq<Rect>,
    table: Seq<(i32, Rect)>,
) -> EmitState {
    let tex = face_tex(b, f);
    if tex.id == -1 || tex.name@ == "trigger"@ {
        st
    } else {
        let trect = rects[tex.id as int];
        let vs = face_verts(b, f, trect, origin, table);
        if name_is_sky(tex.name@) {
            let bb = bbox_fold(b, f, origin, st.smin, st.smax, f.ledges_count as int);
            EmitState {
                sky: st.sky + vs,
                smin: bb.0,
                smax: bb.1,
                sky_tex: Some(tex.id),
                ..st
            }
        } else {
            EmitState { verts: st.verts + vs, ..st }
        }
    }
}

/// Emission state after the faces of the first `mi` models plus the first
/// `fj` faces of model `mi`.
pub open spec fn emit_upto(
    b: BspFile,
    rects: Seq<Rect>,
    table: Seq<(i32, Rect)>,
    mi: int,
    fj: int,
) -> EmitState
    decreases mi, fj + 1,
{
    if fj <= 0 {
        if mi <= 0 {
            emit_init()
        } else {
            emit_upto(b, rects, table, mi - 1, b.models@[mi - 1].faces_count as int)
        }
    } else {
        let m = b.models@[mi];
        let f = b.faces@[m.faces_start + fj - 1];
        emit_face_step(emit_upto(b, rects, table, mi, fj - 1), b, f, m.origin, rects, table)
    }
}

/// The whole emission pass.
pub open spec fn spec_emit(b: BspFile, rects: Seq<Rect>, table: Seq<(i32, Rect)>) -> EmitState {
    emit_upto(b, rects, table, b.models@.len() as int, 0)
}

/// Law (fan closure): a face emits exactly three vertices per ledge, and
/// for each directed boundary edge `j` the three are the edge's first
/// endpoint, the edge's second endpoint, and the face centroid, in that
/// order — so the non-centroid vertices trace the polygon boundary once,
/// in ledge order.
pub proof fn lemma_fan_closure(
    b: BspFile,
    f: Face,
    trect: Rect,
    origin: Vec3,
    table: Seq<(i32, Rect)>,
    j: int,
)
    requires
        0 <= j < f.ledges_count,
    ensures
        face_verts(b, f, trect, origin, table).len() == 3 * f.ledges_count,
        ({
            let vs = face_verts(b, f, trect, origin, table);
            let a = wedge_a(b, f, j);
            let bb = wedge_b(b, f, j);
            let c = centroid(b, f);
            &&& vs[3 * j] == emit_vertex(
                b,
                f,
                trect,
                origin,
                (a.x as int, a.y as int, a.z as int),
                table,
            )
            &&& vs[3 * j + 1] == emit_vertex(
                b,
                f,
                trect,
                origin,
                (bb.x as int, bb.y as int, bb.z as int),
                table,
            )
            &&& vs[3 * j + 2] == emit_vertex(b, f, trect, origin, c, table)
        }),
{
    lemma_fundamental_div_mod_converse(3 * j, 3, j, 0);
    lemma_fundamental_div_mod_converse(3 * j + 1, 3, j, 1);
    lemma_fundamental_div_mod_converse(3 * j + 2, 3, j, 2);
}

/// Law (trigger and unused exclusion): a face whose texture is unused or
/// named "trigger" contributes nothing to the emission state.
pub proof fn lemma_trigger_excluded(
    st: EmitState,
    b: BspFile,
    f: Face,
    origin: Vec3,
    rects: Seq<Rect>,
    table: Seq<(i32, Rect)>,
)
    requires
        face_tex(b, f).id == -1 || face_tex(b, f).name@ == "trigger"@,
    ensures
        emit_face_step(st, b, f, origin, rects, table) == st,
{
}

/// Law (fullbright exclusion): a face whose lighting type is the 0xFF
/// sentinel requests no lightmap tile in the sizing pass, and every vertex
/// it emits carries the `(-1, -1)` lightmap sentinel.
pub proof fn lemma_fullbright_excluded(
    b: BspFile,
    f: Face,
    trect: Rect,
    origin: Vec3,
    table: Seq<(i32, Rect)>,
    mi: int,
    fj: int,
)
    requires
        f.type_light == 0xFF,
        0 < fj,
        0 <= mi < b.models@.len(),
        b.faces@[b.models@[mi].faces_start + fj - 1] == f,
    ensures
        tiles_upto(b, mi, fj) == tiles_upto(b, mi, fj - 1),
        forall|k: int|
            0 <= k < face_verts(b, f, trect, origin, table).len() ==> (#[trigger] face_verts(
                b,
                f,
                trect,
                origin,
                table,
            )[k]).light_info == [-1i16, -1i16],
{
    assert(!face_sized(b, f));
    assert(tiles_upto(b, mi, fj) =~= tiles_upto(b, mi, fj - 1));
    assert forall|k: int| 0 <= k < face_verts(b, f, trect, origin, table).len() implies (
    #[trigger] face_verts(b, f, trect, origin, table)[k]).light_info == [-1i16, -1i16] by {
        assert(eff_type_light(b, f) == 0xFF);
        assert(!face_has_lm(b, f, table));
    }
}

} // verus!

verus! {

/// Saturate a texture-space value into a 16-bit vertex field.
fn clamp16(v: i64) -> (r: i16)
    ensures
        r == c16(v as int),
{
    if v < -32768 {
        -32768
    } else if v > 32767 {
        32767
    } else {
        v as i16
    }
}

/// A truncated mean stays within the bound of the values.
proof fn lemma_tdiv_bound(a: int, d: int, k: int)
    requires
        1 <= d,
        0 <= k,
        -(k * d) <= a <= k * d,
    ensures
        -k <= tdiv(a, d) <= k,
{
    lemma_fundamental_div_mod_converse(k * d, d, k, 0);
    if a >= 0 {
        lemma_div_is_ordered(a, k * d, d);
        vstd::arithmetic::div_mod::lemma_div_pos_is_pos(a, d);
    } else {
        lemma_div_is_ordered(-a, k * d, d);
        vstd::arithmetic::div_mod::lemma_div_pos_is_pos(-a, d);
    }
}

/// Emit the triangle fan of one face: three vertices per directed
/// boundary edge — its two endpoints and the face centroid.
pub fn emit_face(
    b: &BspFile,
    f: &Face,
    trect: Rect,
    origin: Vec3,
    table: &Vec<(i32, Rect)>,
) -> (r: Vec<Vertex>)
    requires
        level_wf(*b),
        face_ok(*b, *f),
        vec3_bounded(origin, 0x10_0000),
        0 <= trect.x <= 0x8000,
        0 <= trect.y <= 0x8000,
    ensures
        r@ == face_verts(*b, *f, trect, origin, table@),
        r@.len() == 3 * f.ledges_count,
{
    let ti = &b.texture_info[f.texture_info];
    proof {
        assert(b.texture_info@[f.texture_info as int].texture < b.textures@.len());
    }
    let tex = &b.textures[ti.texture];
    let n = f.ledges_count;

    // Centroid of all edge endpoints.
    let mut sx: i64 = 0;
    let mut sy: i64 = 0;
    let mut sz: i64 = 0;
    let mut j: usize = 0;
    while j < n
        invariant
            level_wf(*b),
            face_ok(*b, *f),
            j <= n,
            n == f.ledges_count,
            (sx as int, sy as int, sz as int) == sum_edges(*b, *f, j as int),
            -0x4000_0000_0000 <= sx <= 0x4000_0000_0000,
            -0x4000_0000_0000 <= sy <= 0x4000_0000_0000,
            -0x4000_0000_0000 <= sz <= 0x4000_0000_0000,
            -2 * j * 0x10_0000 <= sx <= 2 * j * 0x10_0000,
            -2 * j * 0x10_0000 <= sy <= 2 * j * 0x10_0000,
            -2 * j * 0x10_0000 <= sz <= 2 * j * 0x10_0000,
        decreases n - j,
    {
        let l = b.ledges[f.ledges_start + j];
        proof {
            assert(-(b.edges@.len() as int) < (b.ledges@[f.ledges_start + j] as int) && (
            b.ledges@[f.ledges_start + j] as int) < b.edges@.len() as int);
        }
        let e = if l < 0 {
            &b.edges[(-l) as usize]
        } else {
            &b.edges[l as usize]
        };
        proof {
            assert(*e == b.edges@[iabs(ledge_at(*b, *f, j as int))]);
            assert(vec3_bounded(e.0, 0x10_0000) && vec3_bounded(e.1, 0x10_0000));
        }
        sx = sx + (e.0.x as i64) + (e.1.x as i64);
        sy = sy + (e.0.y as i64) + (e.1.y as i64);
        sz = sz + (e.0.z as i64) + (e.1.z as i64);
        j = j + 1;
    }
    let ec = 2 * (n as u64);
    let cx = tdiv_i64(sx, ec);
    let cy = tdiv_i64(sy, ec);
    let cz = tdiv_i64(sz, ec);
    proof {
        lemma_tdiv_bound(sx as int, ec as int, 0x10_0000);
        lemma_tdiv_bound(sy as int, ec as int, 0x10_0000);
        lemma_tdiv_bound(sz as int, ec as int, 0x10_0000);
        assert((cx as int, cy as int, cz as int) == centroid(*b, *f));
    }

    // Lightmap tile and texel offsets.
    let has_lm_type = {
        let animated = tex.name.as_str().unicode_len() >= 1 && {
            let c0 = tex.name.as_str().get_char(0);
            c0 == '+' || c0 == '*'
        };
        let et: u8 = if animated {
            0xFF
        } else {
            f.type_light
        };
        et != 0xFF && f.light_map != -1
    };
    let tile = if has_lm_type {
        lookup_rect(table, f.light_map)
    } else {
        None
    };
    let (has_lm, tox, toy) = match tile {
        Some(rect) => (true, rect.x as i64, rect.y as i64),
        None => (false, 0i64, 0i64),
    };
    proof {
        assert(has_lm == face_has_lm(*b, *f, table@));
    }
    let (l_s, l_t) = if has_lm {
        let (min_s, _max_s, min_t, _max_t) = face_extents(b, f);
        (floor16(min_s), floor16(min_t))
    } else {
        (0i64, 0i64)
    };

    // Per-vertex constant fields.
    let animated = tex.name.as_str().unicode_len() >= 1 && {
        let c0 = tex.name.as_str().get_char(0);
        c0 == '+' || c0 == '*'
    };
    let el: u8 = if animated {
        127
    } else {
        f.base_light
    };
    let et: u8 = if animated {
        0xFF
    } else {
        f.type_light
    };
    let light: u8 = if el == 255 {
        0
    } else {
        el
    };
    proof {
        assert(el == eff_base_light(*b, *f));
        assert(et == eff_type_light(*b, *f));
    }

    let mut out: Vec<Vertex> = Vec::new();
    let mut j: usize = 0;
    proof {
        assert(out@ =~= face_verts(*b, *f, trect, origin, table@).take(0));
    }
    while j < n
        invariant
            level_wf(*b),
            face_ok(*b, *f),
            vec3_bounded(origin, 0x10_0000),
            0 <= trect.x <= 0x8000,
            0 <= trect.y <= 0x8000,
            j <= n,
            n == f.ledges_count,
            *ti == b.texture_info@[f.texture_info as int],
            *tex == face_tex(*b, *f),
            (cx as int, cy as int, cz as int) == centroid(*b, *f),
            -0x10_0000 <= cx <= 0x10_0000,
            -0x10_0000 <= cy <= 0x10_0000,
            -0x10_0000 <= cz <= 0x10_0000,
            has_lm == face_has_lm(*b, *f, table@),
            has_lm ==> {
                let rect = spec_lookup(table@, f.light_map).unwrap();
                tox == rect.x && toy == rect.y
            },
            has_lm ==> l_s as int == min_val_s(*b, *f, n as int) / 16 && l_t as int == min_val_t(
                *b,
                *f,
                n as int,
            ) / 16,
            has_lm ==> -0x2000_0000 <= l_s <= 0x2000_0000 && -0x2000_0000 <= l_t <= 0x2000_0000,
            has_lm ==> -0x8000_0000 <= tox <= 0x8000_0000 && -0x8000_0000 <= toy <= 0x8000_0000,
            el == eff_base_light(*b, *f),
            et == eff_type_light(*b, *f),
            light == (if eff_base_light(*b, *f) == 255 {
                0u8
            } else {
                eff_base_light(*b, *f)
            }),
            out@ == face_verts(*b, *f, trect, origin, table@).take(3 * j as int),
        decreases n - j,
    {
        let l = b.ledges[f.ledges_start + j];
        proof {
            assert(-(b.edges@.len() as int) < (b.ledges@[f.ledges_start + j] as int) && (
            b.ledges@[f.ledges_start + j] as int) < b.edges@.len() as int);
        }
        let e = if l < 0 {
            &b.edges[(-l) as usize]
        } else {
            &b.edges[l as usize]
        };
        let (av, bv) = if l >= 0 {
            (e.1, e.0)
        } else {
            (e.0, e.1)
        };
        proof {
            assert(*e == b.edges@[iabs(ledge_at(*b, *f, j as int))]);
            assert(vec3_bounded(av, 0x10_0000) && vec3_bounded(bv, 0x10_0000));
            assert(av == wedge_a(*b, *f, j as int));
            assert(bv == wedge_b(*b, *f, j as int));
        }
        let va = push_wedge_vertex(
            b, f, trect, origin, table, av.x as i64, av.y as i64, av.z as i64, tox, toy, l_s, l_t,
            has_lm, light, et,
        );
        let vb = push_wedge_vertex(
            b, f, trect, origin, table, bv.x as i64, bv.y as i64, bv.z as i64, tox, toy, l_s, l_t,
            has_lm, light, et,
        );
        let vc = push_wedge_vertex(
            b, f, trect, origin, table, cx, cy, cz, tox, toy, l_s, l_t, has_lm, light, et,
        );
        out.push(va);
        out.push(vb);
        out.push(vc);
        j = j + 1;
        proof {
            lemma_fan_closure(*b, *f, trect, origin, table@, j as int - 1);
            assert(out@ =~= face_verts(*b, *f, trect, origin, table@).take(3 * j as int));
        }
    }
    proof {
        assert(face_verts(*b, *f, trect, origin, table@).take(3 * n as int) =~= face_verts(
            *b,
            *f,
            trect,
            origin,
            table@,
        ));
    }
    out
}

/// Build the vertex for one fan corner at raw world point `(vx, vy, vz)`.
#[verifier::rlimit(30)]
fn push_wedge_vertex(
    b: &BspFile,
    f: &Face,
    trect: Rect,
    origin: Vec3,
    table: &Vec<(i32, Rect)>,
    vx: i64,
    vy: i64,
    vz: i64,
    tox: i64,
    toy: i64,
    l_s: i64,
    l_t: i64,
    has_lm: bool,
    light: u8,
    et: u8,
) -> (r: Vertex)
    requires
        level_wf(*b),
        face_ok(*b, *f),
        vec3_bounded(origin, 0x10_0000),
        0 <= trect.x <= 0x8000,
        0 <= trect.y <= 0x8000,
        -0x10_0000 <= vx <= 0x10_0000,
        -0x10_0000 <= vy <= 0x10_0000,
        -0x10_0000 <= vz <= 0x10_0000,
        has_lm == face_has_lm(*b, *f, table@),
        has_lm ==> {
            let rect = spec_lookup(table@, f.light_map).unwrap();
            tox == rect.x && toy == rect.y
        },
        has_lm ==> l_s as int == min_val_s(*b, *f, f.ledges_count as int) / 16 && l_t as int
            == min_val_t(*b, *f, f.ledges_count as int) / 16,
        has_lm ==> -0x2000_0000 <= l_s <= 0x2000_0000 && -0x2000_0000 <= l_t <= 0x2000_0000,
        has_lm ==> -0x8000_0000 <= tox <= 0x8000_0000 && -0x8000_0000 <= toy <= 0x8000_0000,
        light == (if eff_base_light(*b, *f) == 255 {
            0u8
        } else {
            eff_base_light(*b, *f)
        }),
        et == eff_type_light(*b, *f),
    ensures
        r == emit_vertex(*b, *f, trect, origin, (vx as int, vy as int, vz as int), table@),
{
    let ti = &b.texture_info[f.texture_info];
    proof {
        assert(b.texture_info@[f.texture_info as int].texture < b.textures@.len());
    }
    let tex = &b.textures[ti.texture];
    proof {
        lemma_product_bounded_wide(vx as int, ti.vector_s.x as int);
        lemma_product_bounded_wide(vy as int, ti.vector_s.y as int);
        lemma_product_bounded_wide(vz as int, ti.vector_s.z as int);
        lemma_product_bounded_wide(vx as int, ti.vector_t.x as int);
        lemma_product_bounded_wide(vy as int, ti.vector_t.y as int);
        lemma_product_bounded_wide(vz as int, ti.vector_t.z as int);
    }
    let a_s = vx * (ti.vector_s.x as i64) + vy * (ti.vector_s.y as i64) + vz * (ti.vector_s.z
        as i64) + (ti.dist_s as i64);
    let a_t = vx * (ti.vector_t.x as i64) + vy * (ti.vector_t.y as i64) + vz * (ti.vector_t.z
        as i64) + (ti.dist_t as i64);
    let light_info: [i16; 2] = if has_lm {
        let qs = floor16(a_s);
        let qt = floor16(a_t);
        [clamp16(tox + qs - l_s), clamp16(toy + qt - l_t)]
    } else {
        [-1, -1]
    };
    let tex_w = tex.width;
    let tex_h = tex.height;
    proof {
        if face_tex(*b, *f).id != -1 {
            assert(tex_ok_for_bake(face_tex(*b, *f), face_tex(*b, *f).id as int));
        } else {
            assert(tex_ok_for_bake(
                b.textures@[b.texture_info@[f.texture_info as int].texture as int],
                b.texture_info@[f.texture_info as int].texture as int,
            ));
        }
    }
    Vertex {
        position: [
            origin.x + (vx as i32),
            origin.y + (vy as i32),
            origin.z + (vz as i32),
        ],
        tex: [trect.x as u16, trect.y as u16],
        tex_info: [clamp16(a_s), clamp16(a_t), tex_w as i16, tex_h as i16],
        light_info,
        light,
        light_type: et,
    }
}

/// Product of a bounded wide coordinate and a projection component.
proof fn lemma_product_bounded_wide(a: int, c: int)
    requires
        -0x10_0000 <= a <= 0x10_0000,
        -0x400 <= c <= 0x400,
    ensures
        -0x4000_0000 <= a * c <= 0x4000_0000,
{
    assert(-0x4000_0000 <= a * c <= 0x4000_0000) by (nonlinear_arith)
        requires
            -0x10_0000 <= a <= 0x10_0000,
            -0x400 <= c <= 0x400,
    {
    }
}

} // verus!

verus! {

/// The bounding box fold stays within the world bound plus the origin.
proof fn lemma_bbox_bounded(b: BspFile, f: Face, origin: Vec3, lo: (int, int, int), hi: (int, int, int), n: int)
    requires
        level_wf(b),
        f.ledges_start + f.ledges_count <= b.ledges@.len(),
        n <= f.ledges_count,
        vec3_bounded(origin, 0x10_0000),
        -0x20_0000 <= lo.0 <= 0x20_0000,
        -0x20_0000 <= lo.1 <= 0x20_0000,
        -0x20_0000 <= lo.2 <= 0x20_0000,
        -0x20_0000 <= hi.0 <= 0x20_0000,
        -0x20_0000 <= hi.1 <= 0x20_0000,
        -0x20_0000 <= hi.2 <= 0x20_0000,
    ensures
        ({
            let bb = bbox_fold(b, f, origin, lo, hi, n);
            &&& -0x20_0000 <= bb.0.0 <= 0x20_0000
            &&& -0x20_0000 <= bb.0.1 <= 0x20_0000
            &&& -0x20_0000 <= bb.0.2 <= 0x20_0000
            &&& -0x20_0000 <= bb.1.0 <= 0x20_0000
            &&& -0x20_0000 <= bb.1.1 <= 0x20_0000
            &&& -0x20_0000 <= bb.1.2 <= 0x20_0000
        }),
    decreases n,
{
    if n > 0 {
        lemma_bbox_bounded(b, f, origin, lo, hi, n - 1);
        let l = b.ledges@[f.ledges_start + n - 1] as int;
        assert(-(b.edges@.len() as int) < l && l < b.edges@.len() as int);
        let e = b.edges@[iabs(l)];
        assert(vec3_bounded(e.0, 0x10_0000) && vec3_bounded(e.1, 0x10_0000));
    }
}

/// Emit all geometry of the level: the opaque vertex stream, the sky
/// vertex stream, the world bounding box of the sky surfaces (including
/// the origin it starts from), and the id of the last sky texture seen.
pub fn emit_geometry(b: &BspFile, rects: &Vec<Rect>, table: &Vec<(i32, Rect)>) -> (r: (
    Vec<Vertex>,
    Vec<Vertex>,
    Vec3,
    Vec3,
    Option<i32>,
))
    requires
        level_wf(*b),
        rects@.len() == b.textures@.len(),
        forall|i: int|
            0 <= i < rects@.len() ==> 0 <= (#[trigger] rects@[i]).x <= 0x8000 && 0 <= rects@[i].y
                <= 0x8000,
    ensures
        ({
            let st = spec_emit(*b, rects@, table@);
            &&& r.0@ == st.verts
            &&& r.1@ == st.sky
            &&& (r.2.x as int, r.2.y as int, r.2.z as int) == st.smin
            &&& (r.3.x as int, r.3.y as int, r.3.z as int) == st.smax
            &&& r.4 == st.sky_tex
            &&& vec3_bounded(r.2, 0x20_0000)
            &&& vec3_bounded(r.3, 0x20_0000)
        }),
{
    let ghost rs = rects@;
    let ghost tb = table@;
    let mut verts: Vec<Vertex> = Vec::new();
    let mut sky: Vec<Vertex> = Vec::new();
    let mut smin = Vec3 { x: 0, y: 0, z: 0 };
    let mut smax = Vec3 { x: 0, y: 0, z: 0 };
    let mut sky_tex: Option<i32> = None;
    let trigger_name: String = "trigger".to_owned();
    let mut mi: usize = 0;
    while mi < b.models.len()
        invariant
            level_wf(*b),
            rects@ == rs,
            table@ == tb,
            rs.len() == b.textures@.len(),
            forall|i: int|
                0 <= i < rs.len() ==> 0 <= (#[trigger] rs[i]).x <= 0x8000 && 0 <= rs[i].y <= 0x8000,
            trigger_name@ == "trigger"@,
            mi <= b.models@.len(),
            ({
                let st = emit_upto(*b, rs, tb, mi as int, 0);
                &&& verts@ == st.verts
                &&& sky@ == st.sky
                &&& (smin.x as int, smin.y as int, smin.z as int) == st.smin
                &&& (smax.x as int, smax.y as int, smax.z as int) == st.smax
                &&& sky_tex == st.sky_tex
            }),
            vec3_bounded(smin, 0x20_0000),
            vec3_bounded(smax, 0x20_0000),
        decreases b.models@.len() - mi,
    {
        let model = &b.models[mi];
        let mut fj: usize = 0;
        while fj < model.faces_count
            invariant
                level_wf(*b),
                rects@ == rs,
                table@ == tb,
                rs.len() == b.textures@.len(),
                forall|i: int|
                    0 <= i < rs.len() ==> 0 <= (#[trigger] rs[i]).x <= 0x8000 && 0 <= rs[i].y
                        <= 0x8000,
                trigger_name@ == "trigger"@,
                mi < b.models@.len(),
                *model == b.models@[mi as int],
                fj <= model.faces_count,
                ({
                    let st = emit_upto(*b, rs, tb, mi as int, fj as int);
                    &&& verts@ == st.verts
                    &&& sky@ == st.sky
                    &&& (smin.x as int, smin.y as int, smin.z as int) == st.smin
                    &&& (smax.x as int, smax.y as int, smax.z as int) == st.smax
                    &&& sky_tex == st.sky_tex
                }),
                vec3_bounded(smin, 0x20_0000),
                vec3_bounded(smax, 0x20_0000),
            decreases model.faces_count - fj,
        {
            proof {
                assert(b.models@[mi as int].faces_start + b.models@[mi as int].faces_count
                    <= b.faces@.len());
                assert(b.faces.len() == b.faces@.len());
                assert(vec3_bounded(b.models@[mi as int].origin, 0x10_0000));
            }
            let face = &b.faces[model.faces_start + fj];
            proof {
                assert(face_ok(*b, *face));
            }
            let ti = &b.texture_info[face.texture_info];
            let tex = &b.textures[ti.texture];
            let ghost st_pre = emit_upto(*b, rs, tb, mi as int, fj as int);
            if tex.id == -1 || tex.name == trigger_name {
                fj = fj + 1;
                proof {
                    assert(emit_upto(*b, rs, tb, mi as int, fj as int) == st_pre);
                }
                continue;
            }
            proof {
                assert(tex_ok_for_bake(face_tex(*b, *face), face_tex(*b, *face).id as int));
                assert(0 <= face_tex(*b, *face).id < rs.len());
            }
            let trect = rects[tex.id as usize];
            let mut fan = emit_face(b, face, trect, model.origin, table);
            let is_sky = tex.name.as_str().unicode_len() >= 3 && {
                let c0 = tex.name.as_str().get_char(0);
                let c1 = tex.name.as_str().get_char(1);
                let c2 = tex.name.as_str().get_char(2);
                c0 == 's' && c1 == 'k' && c2 == 'y'
            };
            proof {
                assert(is_sky == name_is_sky(face_tex(*b, *face).name@));
            }
            if is_sky {
                sky_tex = Some(tex.id);
                let ghost lo0 = (smin.x as int, smin.y as int, smin.z as int);
                let ghost hi0 = (smax.x as int, smax.y as int, smax.z as int);
                let mut k: usize = 0;
                while k < face.ledges_count
                    invariant
                        level_wf(*b),
                        face_ok(*b, *face),
                        mi < b.models@.len(),
                        *model == b.models@[mi as int],
                        k <= face.ledges_count,
                        vec3_bounded(smin, 0x20_0000),
                        vec3_bounded(smax, 0x20_0000),
                        ({
                            let bb = bbox_fold(*b, *face, model.origin, lo0, hi0, k as int);
                            &&& (smin.x as int, smin.y as int, smin.z as int) == bb.0
                            &&& (smax.x as int, smax.y as int, smax.z as int) == bb.1
                        }),
                    decreases face.ledges_count - k,
                {
                    proof {
                        assert(vec3_bounded(b.models@[mi as int].origin, 0x10_0000));
                        assert(-(b.edges@.len() as int) < (b.ledges@[face.ledges_start + k]
                            as int) && (b.ledges@[face.ledges_start + k] as int)
                            < b.edges@.len() as int);
                    }
                    let l = b.ledges[face.ledges_start + k];
                    let e = if l < 0 {
                        &b.edges[(-l) as usize]
                    } else {
                        &b.edges[l as usize]
                    };
                    proof {
                        assert(*e == b.edges@[iabs(ledge_at(*b, *face, k as int))]);
                        assert(vec3_bounded(e.0, 0x10_0000) && vec3_bounded(e.1, 0x10_0000));
                    }
                    let x0 = model.origin.x + e.0.x;
                    let y0 = model.origin.y + e.0.y;
                    let z0 = model.origin.z + e.0.z;
                    let x1 = model.origin.x + e.1.x;
                    let y1 = model.origin.y + e.1.y;
                    let z1 = model.origin.z + e.1.z;
                    if x0 < smin.x {
                        smin.x = x0;
                    }
                    if x1 < smin.x {
                        smin.x = x1;
                    }
                    if y0 < smin.y {
                        smin.y = y0;
                    }
                    if y1 < smin.y {
                        smin.y = y1;
                    }
                    if z0 < smin.z {
                        smin.z = z0;
                    }
                    if z1 < smin.z {
                        smin.z = z1;
                    }
                    if x0 > smax.x {
                        smax.x = x0;
                    }
                    if x1 > smax.x {
                        smax.x = x1;
                    }
                    if y0 > smax.y {
                        smax.y = y0;
                    }
                    if y1 > smax.y {
                        smax.y = y1;
                    }
                    if z0 > smax.z {
                        smax.z = z0;
                    }
                    if z1 > smax.z {
                        smax.z = z1;
                    }
                    k = k + 1;
                }
                sky.append(&mut fan);
            } else {
                verts.append(&mut fan);
            }
            fj = fj + 1;
            proof {
                let st_post = emit_face_step(
                    st_pre,
                    *b,
                    b.faces@[b.models@[mi as int].faces_start + fj - 1],
                    b.models@[mi as int].origin,
                    rs,
                    tb,
                );
                assert(emit_upto(*b, rs, tb, mi as int, fj as int) == st_post);
                if is_sky {
                    assert(sky@ =~= st_post.sky);
                    assert(verts@ =~= st_post.verts);
                } else {
                    assert(verts@ =~= st_post.verts);
                    assert(sky@ =~= st_post.sky);
                }
            }
        }
        mi = mi + 1;
        proof {
            assert(emit_upto(*b, rs, tb, mi as int, 0) == emit_upto(
                *b,
                rs,
                tb,
                mi as int - 1,
                b.models@[mi as int - 1].faces_count as int,
            ));
        }
    }
    proof {
        assert(emit_upto(*b, rs, tb, b.models@.len() as int, 0) == spec_emit(*b, rs, tb));
    }
    (verts, sky, smin, smax, sky_tex)
}

} // verus!

verus! {

/// One sky box vertex: ring `z` (0 or 1), corner `c` of the two-triangle
/// quad. The two rings share the quad but sample the two horizontal
/// halves of the sky texture and mark the ring in `light_type`.
pub open spec fn sky_vertex(trect: Rect, lo: Vec3, hi: Vec3, z: int, c: int) -> Vertex {
    let w = trect.width as int / 2;
    let px = if c == 0 || c == 1 || c == 3 {
        lo.x
    } else {
        hi.x
    };
    let py = if c == 0 || c == 2 || c == 5 {
        lo.y
    } else {
        hi.y
    };
    Vertex {
        position: [px, py, (hi.z + 100 * z) as i32],
        tex: [(trect.x + w * z) as u16, trect.y as u16],
        tex_info: [0i16, 0i16, w as i16, trect.height as i16],
        light_info: [0i16, 0i16],
        light: 0u8,
        light_type: z as u8,
    }
}

/// The sky box stream: two rings of six vertices over the sky bounds.
pub open spec fn spec_sky_box(trect: Rect, lo: Vec3, hi: Vec3) -> Seq<Vertex> {
    Seq::new(12, |k: int| sky_vertex(trect, lo, hi, k / 6, k % 6))
}

/// Build one sky box corner vertex.
fn sky_corner(trect: Rect, lo: Vec3, hi: Vec3, z: usize, c: usize) -> (r: Vertex)
    requires
        z < 2,
        c < 6,
        0 <= trect.x <= 0x8000,
        0 <= trect.y <= 0x8000,
        0 <= trect.width <= 0x8000,
        0 <= trect.height <= 0x7FFF,
        vec3_bounded(lo, 0x40_0000),
        vec3_bounded(hi, 0x40_0000),
    ensures
        r == sky_vertex(trect, lo, hi, z as int, c as int),
{
    let w = trect.width / 2;
    let px = if c == 0 || c == 1 || c == 3 {
        lo.x
    } else {
        hi.x
    };
    let py = if c == 0 || c == 2 || c == 5 {
        lo.y
    } else {
        hi.y
    };
    proof {
        vstd::arithmetic::mul::lemma_mul_upper_bound(w as int, 0x4000, z as int, 1);
        lemma_mul_nonnegative(w as int, z as int);
        vstd::arithmetic::mul::lemma_mul_upper_bound(100, 100, z as int, 1);
        lemma_mul_nonnegative(100, z as int);
    }
    Vertex {
        position: [px, py, hi.z + 100 * (z as i32)],
        tex: [(trect.x + w * (z as i32)) as u16, trect.y as u16],
        tex_info: [0i16, 0i16, w as i16, trect.height as i16],
        light_info: [0i16, 0i16],
        light: 0u8,
        light_type: z as u8,
    }
}

/// Synthesize the sky box: two rings of one horizontal quad spanning the
/// recorded sky bounds, the upper ring offset for the parallax illusion,
/// each ring textured with one horizontal half of the sky texture's atlas
/// rectangle.
pub fn gen_sky_box(textures: &Vec<Rect>, tex: i32, lo: Vec3, hi: Vec3) -> (r: Vec<Vertex>)
    requires
        0 <= tex < textures@.len(),
        ({
            let trect = textures@[tex as int];
            &&& 0 <= trect.x <= 0x8000
            &&& 0 <= trect.y <= 0x8000
            &&& 0 <= trect.width <= 0x8000
            &&& 0 <= trect.height <= 0x7FFF
        }),
        vec3_bounded(lo, 0x40_0000),
        vec3_bounded(hi, 0x40_0000),
    ensures
        r@ == spec_sky_box(textures@[tex as int], lo, hi),
{
    let trect = textures[tex as usize];
    let mut out: Vec<Vertex> = Vec::new();
    let mut z: usize = 0;
    proof {
        assert(out@ =~= spec_sky_box(trect, lo, hi).take(0));
    }
    while z < 2
        invariant
            z <= 2,
            trect == textures@[tex as int],
            0 <= trect.x <= 0x8000,
            0 <= trect.y <= 0x8000,
            0 <= trect.width <= 0x8000,
            0 <= trect.height <= 0x7FFF,
            vec3_bounded(lo, 0x40_0000),
            vec3_bounded(hi, 0x40_0000),
            out@ == spec_sky_box(trect, lo, hi).take(6 * z as int),
        decreases 2 - z,
    {
        let mut c: usize = 0;
        while c < 6
            invariant
                z < 2,
                c <= 6,
                trect == textures@[tex as int],
                0 <= trect.x <= 0x8000,
                0 <= trect.y <= 0x8000,
                0 <= trect.width <= 0x8000,
                0 <= trect.height <= 0x7FFF,
                vec3_bounded(lo, 0x40_0000),
                vec3_bounded(hi, 0x40_0000),
                out@ == spec_sky_box(trect, lo, hi).take(6 * z as int + c as int),
            decreases 6 - c,
        {
            let v = sky_corner(trect, lo, hi, z, c);
            out.push(v);
            c = c + 1;
            proof {
                lemma_fundamental_div_mod_converse(6 * z as int + c - 1, 6, z as int, c as int - 1);
                assert(out@ =~= spec_sky_box(trect, lo, hi).take(6 * z as int + c as int));
            }
        }
        z = z + 1;
    }
    proof {
        assert(spec_sky_box(trect, lo, hi).take(12) =~= spec_sky_box(trect, lo, hi));
    }
    out
}

} // verus!

verus! {

/// Through the texture packing fold the atlas stays well formed with its
/// configuration, the slot table keeps its length, and every slot holds a
/// rectangle inside the atlas with dimensions below the 16-bit bound.
proof fn lemma_pack_fold_invariants(ts: Seq<Texture>, sorted: Seq<TSortable>, n: int)
    requires
        0 <= n <= sorted.len(),
        forall|k: int|
            0 <= k < sorted.len() ==> 1 <= (#[trigger] sorted[k]).width <= 0x7FFF && 1
                <= sorted[k].height <= 0x7FFF,
        forall|k: int| 0 <= k < sorted.len() ==> tile_from_textures(#[trigger] sorted[k], ts),
        spec_pack_fold(ts, sorted, n) is Some,
    ensures
        ({
            let st = spec_pack_fold(ts, sorted, n).unwrap();
            &&& st.atlas.wf()
            &&& st.atlas.padding == 0
            &&& st.atlas.width == ATLAS_SIZE
            &&& st.atlas.height == ATLAS_SIZE
            &&& st.rects.len() == ts.len()
            &&& forall|i: int|
                0 <= i < st.rects.len() ==> 0 <= (#[trigger] st.rects[i]).x <= 0x8000 && 0
                    <= st.rects[i].y <= 0x8000 && 0 <= st.rects[i].width <= 0x8000 && 0
                    <= st.rects[i].height <= 0x7FFF
        }),
    decreases n,
{
    if n == 0 {
    } else {
        lemma_pack_fold_invariants(ts, sorted, n - 1);
        let st = spec_pack_fold(ts, sorted, n - 1).unwrap();
        let t = sorted[n - 1];
        lemma_find_state_wf(st.atlas, t.width as int, t.height as int);
        lemma_padded_rect_bounds(st.atlas, t.width as int, t.height as int);
        let stn = spec_pack_fold(ts, sorted, n).unwrap();
        let rect = spec_find_rect(st.atlas, t.width as int, t.height as int).unwrap();
        assert forall|i: int| 0 <= i < stn.rects.len() implies 0 <= (#[trigger] stn.rects[i]).x
            <= 0x8000 && 0 <= stn.rects[i].y <= 0x8000 && 0 <= stn.rects[i].width <= 0x8000 && 0
            <= stn.rects[i].height <= 0x7FFF by {
            if i != t.idx {
                assert(stn.rects[i] == st.rects[i]);
            } else {
                assert(stn.rects[i] == rect);
            }
        }
    }
}

/// Every tile the sizing pass requests has positive dimensions.
proof fn lemma_tiles_dims(b: BspFile, mi: int, fj: int)
    requires
        level_wf(b),
        0 <= mi <= b.models@.len(),
        0 <= fj,
        mi < b.models@.len() ==> fj <= b.models@[mi].faces_count,
        mi == b.models@.len() ==> fj == 0,
    ensures
        forall|k: int|
            0 <= k < tiles_upto(b, mi, fj).len() ==> 1 <= (#[trigger] tiles_upto(b, mi, fj)[k]).width
                && 1 <= tiles_upto(b, mi, fj)[k].height,
    decreases mi, fj + 1,
{
    if fj <= 0 {
        if mi > 0 {
            lemma_tiles_dims(b, mi - 1, b.models@[mi - 1].faces_count as int);
            assert forall|k: int| 0 <= k < tiles_upto(b, mi, fj).len() implies 1 <= (
            #[trigger] tiles_upto(b, mi, fj)[k]).width && 1 <= tiles_upto(b, mi, fj)[k].height by {
                assert(tiles_upto(b, mi, fj)[k] == tiles_upto(
                    b,
                    mi - 1,
                    b.models@[mi - 1].faces_count as int,
                )[k]);
            }
        }
    } else {
        lemma_tiles_dims(b, mi, fj - 1);
        let m = b.models@[mi];
        let f = b.faces@[m.faces_start + fj - 1];
        assert(face_ok(b, f));
        if face_sized(b, f) {
            let n = f.ledges_count as int;
            lemma_min_le_max(b, f, n);
            lemma_extents_bounded(b, f, n);
            lemma_div_is_ordered(min_val_s(b, f, n), max_val_s(b, f, n) + 15, 16);
            lemma_div_is_ordered(min_val_t(b, f, n), max_val_t(b, f, n) + 15, 16);
            lemma_div_is_ordered(-0x2_0000_0000, min_val_s(b, f, n), 16);
            lemma_div_is_ordered(-0x2_0000_0000, min_val_t(b, f, n), 16);
            lemma_div_is_ordered(max_val_s(b, f, n) + 15, 0x2_0000_000Fint, 16);
            lemma_div_is_ordered(max_val_t(b, f, n) + 15, 0x2_0000_000Fint, 16);
            assert forall|k: int| 0 <= k < tiles_upto(b, mi, fj).len() implies 1 <= (
            #[trigger] tiles_upto(b, mi, fj)[k]).width && 1 <= tiles_upto(b, mi, fj)[k].height by {
                if k == tiles_upto(b, mi, fj).len() - 1 {
                    assert(tiles_upto(b, mi, fj)[k] == face_tile(b, f));
                } else {
                    assert(tiles_upto(b, mi, fj)[k] == tiles_upto(b, mi, fj - 1)[k]);
                }
            }
        } else {
            assert forall|k: int| 0 <= k < tiles_upto(b, mi, fj).len() implies 1 <= (
            #[trigger] tiles_upto(b, mi, fj)[k]).width && 1 <= tiles_upto(b, mi, fj)[k].height by {
                assert(tiles_upto(b, mi, fj) =~= tiles_upto(b, mi, fj - 1));
            }
        }
    }
}

/// When the emission pass records a sky texture, it is a used slot of the
/// texture table.
proof fn lemma_emit_sky_tex(b: BspFile, rects: Seq<Rect>, table: Seq<(i32, Rect)>, mi: int, fj: int)
    requires
        level_wf(b),
        0 <= mi <= b.models@.len(),
        0 <= fj,
        mi < b.models@.len() ==> fj <= b.models@[mi].faces_count,
        mi == b.models@.len() ==> fj == 0,
    ensures
        ({
            let st = emit_upto(b, rects, table, mi, fj);
            st.sky_tex matches Some(id) ==> 0 <= id < b.textures@.len()
        }),
    decreases mi, fj + 1,
{
    if fj <= 0 {
        if mi > 0 {
            lemma_emit_sky_tex(b, rects, table, mi - 1, b.models@[mi - 1].faces_count as int);
        }
    } else {
        lemma_emit_sky_tex(b, rects, table, mi, fj - 1);
        let m = b.models@[mi];
        let f = b.faces@[m.faces_start + fj - 1];
        assert(face_ok(b, f));
        let tex = face_tex(b, f);
        if tex.id != -1 {
            let tix = b.texture_info@[f.texture_info as int].texture as int;
            assert(tex_ok_for_bake(b.textures@[tix], tix));
        }
    }
}

/// Everything the baker produces for a level: the texture slot table and
/// three mip atlas buffers, the lightmap table and atlas buffer, the three
/// vertex streams, and the sky bounds.
pub struct Baked {
    pub texture_rects: Vec<Rect>,
    pub texture_data: Vec<Vec<u8>>,
    pub light_map_data: Vec<u8>,
    pub light_rects: Vec<(i32, Rect)>,
    pub verts: Vec<Vertex>,
    pub verts_sky: Vec<Vertex>,
    pub verts_sky_box: Vec<Vertex>,
    pub sky_min: Vec3,
    pub sky_max: Vec3,
}

/// The sorted lightmap tile requests of a level.
pub open spec fn spec_sorted_tiles(b: BspFile) -> Seq<TSortable> {
    spec_sort_desc(spec_light_tiles(b))
}

/// The sorted texture packing requests of a level.
pub open spec fn spec_sorted_tex(b: BspFile) -> Seq<TSortable> {
    spec_sort_desc(spec_tex_list(b.textures@))
}

/// Bake a decoded level: pack its textures into a mipmapped atlas, size
/// and pack its lightmaps into a padded atlas with edge-clamped borders,
/// emit the opaque and sky triangle fans, and synthesize the sky box when
/// any sky surface exists. Fails exactly when an atlas runs out of room
/// or a lightmap tile's bytes lie outside the lightmap lump.
pub fn bake(b: &BspFile) -> (r: Result<Baked, BakeError>)
    requires
        level_wf(*b),
    ensures
        ({
            let tex_outcome = spec_pack_fold(
                b.textures@,
                spec_sorted_tex(*b),
                spec_sorted_tex(*b).len() as int,
            );
            let lm_outcome = spec_lights_fold(
                b.light_maps@,
                spec_sorted_tiles(*b),
                spec_sorted_tiles(*b).len() as int,
            );
            match r {
                Ok(baked) => {
                    let tst = tex_outcome.unwrap();
                    let lst = lm_outcome.unwrap();
                    let est = spec_emit(*b, tst.rects, lst.table);
                    &&& tex_outcome is Some
                    &&& lm_outcome is Ok
                    &&& baked.texture_rects@ == tst.rects
                    &&& baked.texture_data@.len() == 3
                    &&& (forall|mip: int|
                        0 <= mip < 3 ==> (#[trigger] baked.texture_data@[mip])@ == tst.bufs[mip])
                    &&& baked.light_rects@ == lst.table
                    &&& baked.light_map_data@ == lst.buf
                    &&& baked.verts@ == est.verts
                    &&& baked.verts_sky@ == est.sky
                    &&& (baked.sky_min.x as int, baked.sky_min.y as int, baked.sky_min.z as int)
                        == est.smin
                    &&& (baked.sky_max.x as int, baked.sky_max.y as int, baked.sky_max.z as int)
                        == est.smax
                    &&& match est.sky_tex {
                        Some(id) => baked.verts_sky_box@ == spec_sky_box(
                            tst.rects[id as int],
                            (Vec3 {
                                x: (est.smin.0 - 2000) as i32,
                                y: (est.smin.1 - 2000) as i32,
                                z: est.smin.2 as i32,
                            }),
                            (Vec3 {
                                x: (est.smax.0 + 2000) as i32,
                                y: (est.smax.1 + 2000) as i32,
                                z: est.smax.2 as i32,
                            }),
                        ),
                        None => baked.verts_sky_box@ == Seq::<Vertex>::empty(),
                    }
                },
                Err(e) => {
                    ||| (tex_outcome is None && e == BakeError::AtlasFull)
                    ||| (tex_outcome is Some && lm_outcome == Result::<
                        LightPackState,
                        BakeError,
                    >::Err(e))
                },
            }
        }),
{
    let (texture_rects, texture_data) = match pack_textures(&b.textures) {
        Ok(p) => p,
        Err(e) => {
            return Err(e);
        },
    };
    let tiles = lights_sizing(b);
    proof {
        lemma_tiles_dims(*b, b.models@.len() as int, 0);
    }
    let sorted = sort_tiles(tiles);
    proof {
        lemma_sort_desc_members(spec_light_tiles(*b));
        assert forall|k: int| 0 <= k < sorted@.len() implies 1 <= (#[trigger] sorted@[k]).width && 1
            <= sorted@[k].height by {
            let j = choose|j: int|
                0 <= j < spec_light_tiles(*b).len() && sorted@[k] == spec_light_tiles(*b)[j];
        }
    }
    let (light_rects, light_map_data) = match pack_lightmaps(&sorted, &b.light_maps) {
        Ok(p) => p,
        Err(e) => {
            return Err(e);
        },
    };
    proof {
        lemma_tex_list_members(b.textures@);
        lemma_sort_desc_members(spec_tex_list(b.textures@));
        assert forall|k: int| 0 <= k < spec_sorted_tex(*b).len() implies 1 <= (
        #[trigger] spec_sorted_tex(*b)[k]).width <= 0x7FFF && 1 <= spec_sorted_tex(*b)[k].height
            <= 0x7FFF && tile_from_textures(spec_sorted_tex(*b)[k], b.textures@) by {
            let j = choose|j: int|
                0 <= j < spec_tex_list(b.textures@).len() && spec_sorted_tex(*b)[k] == spec_tex_list(
                    b.textures@,
                )[j];
            assert(tile_from_textures(spec_tex_list(b.textures@)[j], b.textures@));
            let t = spec_tex_list(b.textures@)[j];
            assert(tex_ok_for_bake(b.textures@[t.idx as int], t.idx as int));
        }
        lemma_pack_fold_invariants(
            b.textures@,
            spec_sorted_tex(*b),
            spec_sorted_tex(*b).len() as int,
        );
    }
    let (verts, verts_sky, sky_min, sky_max, sky_tex) = emit_geometry(b, &texture_rects, &light_rects);
    let verts_sky_box = match sky_tex {
        Some(id) => {
            proof {
                lemma_emit_sky_tex(*b, texture_rects@, light_rects@, b.models@.len() as int, 0);
            }
            gen_sky_box(
                &texture_rects,
                id,
                Vec3 { x: sky_min.x - 2000, y: sky_min.y - 2000, z: sky_min.z },
                Vec3 { x: sky_max.x + 2000, y: sky_max.y + 2000, z: sky_max.z },
            )
        },
        None => Vec::new(),
    };
    Ok(
        Baked {
            texture_rects,
            texture_data,
            light_map_data,
            light_rects,
            verts,
            verts_sky,
            verts_sky_box,
            sky_min,
            sky_max,
        },
    )
}

} // verus!

verus! {

/// Check one coordinate triple against a bound.
fn vec3_in_bounds(v: &Vec3, bound: i32) -> (r: bool)
    requires
        0 <= bound,
    ensures
        r == vec3_bounded(*v, bound as int),
{
    -bound <= v.x && v.x <= bound && -bound <= v.y && v.y <= bound && -bound <= v.z && v.z <= bound
}

/// Check one texture slot.
fn texture_in_bounds(t: &Texture, idx: usize) -> (r: bool)
    requires
        idx <= 0x7FFF_FFFF,
    ensures
        r == tex_ok_for_bake(*t, idx as int),
{
    if t.id == -1 {
        return true;
    }
    if !(t.id >= 0 && (t.id as usize) == idx) {
        return false;
    }
    if !(1 <= t.width && t.width <= 0x7FFF && 1 <= t.height && t.height <= 0x7FFF) {
        return false;
    }
    let mut mip: usize = 0;
    while mip < 4
        invariant
            mip <= 4,
            t.id == idx,
            1 <= t.width <= 0x7FFF,
            1 <= t.height <= 0x7FFF,
            forall|m: int|
                0 <= m < mip ==> {
                    &&& (#[trigger] t.pictures@[m]).width == t.width as int / mip_div(m)
                    &&& t.pictures@[m].height == t.height as int / mip_div(m)
                    &&& t.pictures@[m].data@.len() == (t.width as int / mip_div(m)) * (
                    t.height as int / mip_div(m))
                },
        decreases 4 - mip,
    {
        let d: u32 = if mip == 0 {
            1
        } else if mip == 1 {
            2
        } else if mip == 2 {
            4
        } else {
            8
        };
        let pw = t.width / d;
        let ph = t.height / d;
        proof {
            lemma_mul_nonnegative(pw as int, ph as int);
            vstd::arithmetic::mul::lemma_mul_upper_bound(pw as int, 0x7FFF, ph as int, 0x7FFF);
        }
        let pic = &t.pictures[mip];
        if !(pic.width == pw && pic.height == ph && pic.data.len() as u64 == (pw as u64) * (
        ph as u64)) {
            proof {
                assert(t.pictures@[mip as int].width != t.width as int / mip_div(mip as int)
                    || t.pictures@[mip as int].height != t.height as int / mip_div(mip as int)
                    || t.pictures@[mip as int].data@.len() != (t.width as int / mip_div(
                    mip as int,
                )) * (t.height as int / mip_div(mip as int)));
            }
            return false;
        }
        mip = mip + 1;
    }
    true
}

/// Check that a decoded level satisfies the baker's level invariant:
/// indices in range and coordinates within the bounds the texture-space
/// arithmetic assumes.
pub fn check_level(b: &BspFile) -> (r: bool)
    ensures
        r == level_wf(*b),
{
    if b.ledges.len() > 0x0800_0000 || b.edges.len() > 0x0100_0000 || b.textures.len()
        > 0x7FFF_FFFF {
        return false;
    }
    let mut i: usize = 0;
    while i < b.edges.len()
        invariant
            i <= b.edges@.len(),
            forall|k: int|
                0 <= k < i ==> vec3_bounded((#[trigger] b.edges@[k]).0, 0x10_0000) && vec3_bounded(
                    b.edges@[k].1,
                    0x10_0000,
                ),
        decreases b.edges@.len() - i,
    {
        let e = &b.edges[i];
        if !vec3_in_bounds(&e.0, 0x10_0000) || !vec3_in_bounds(&e.1, 0x10_0000) {
            return false;
        }
        i = i + 1;
    }
    let mut i: usize = 0;
    while i < b.ledges.len()
        invariant
            i <= b.ledges@.len(),
            b.edges@.len() <= 0x0100_0000,
            forall|k: int|
                0 <= k < i ==> -(b.edges@.len() as int) < ((#[trigger] b.ledges@[k]) as int) && (
                b.ledges@[k] as int) < b.edges@.len() as int,
        decreases b.ledges@.len() - i,
    {
        let l = b.ledges[i] as i64;
        let n = b.edges.len() as i64;
        if !(-n < l && l < n) {
            return false;
        }
        i = i + 1;
    }
    let mut i: usize = 0;
    while i < b.texture_info.len()
        invariant
            i <= b.texture_info@.len(),
            forall|k: int|
                0 <= k < i ==> {
                    let ti = #[trigger] b.texture_info@[k];
                    &&& vec3_bounded(ti.vector_s, 0x400)
                    &&& vec3_bounded(ti.vector_t, 0x400)
                    &&& -0x4000_0000 <= ti.dist_s <= 0x4000_0000
                    &&& -0x4000_0000 <= ti.dist_t <= 0x4000_0000
                    &&& ti.texture < b.textures@.len()
                },
        decreases b.texture_info@.len() - i,
    {
        let ti = &b.texture_info[i];
        if !vec3_in_bounds(&ti.vector_s, 0x400) || !vec3_in_bounds(&ti.vector_t, 0x400) {
            return false;
        }
        if !(-0x4000_0000 <= ti.dist_s && ti.dist_s <= 0x4000_0000 && -0x4000_0000 <= ti.dist_t
            && ti.dist_t <= 0x4000_0000) {
            return false;
        }
        if ti.texture >= b.textures.len() {
            return false;
        }
        i = i + 1;
    }
    let mut i: usize = 0;
    while i < b.faces.len()
        invariant
            i <= b.faces@.len(),
            forall|k: int| 0 <= k < i ==> face_ok(*b, #[trigger] b.faces@[k]),
        decreases b.faces@.len() - i,
    {
        let f = &b.faces[i];
        if f.texture_info >= b.texture_info.len() {
            return false;
        }
        if f.ledges_start > b.ledges.len() || b.ledges.len() - f.ledges_start < f.ledges_count {
            return false;
        }
        if f.ledges_count < 1 || f.ledges_count > 0xFFFF {
            return false;
        }
        i = i + 1;
    }
    let mut i: usize = 0;
    while i < b.textures.len()
        invariant
            i <= b.textures@.len(),
            b.textures@.len() <= 0x7FFF_FFFF,
            forall|k: int| 0 <= k < i ==> tex_ok_for_bake(#[trigger] b.textures@[k], k),
        decreases b.textures@.len() - i,
    {
        if !texture_in_bounds(&b.textures[i], i) {
            return false;
        }
        i = i + 1;
    }
    let mut i: usize = 0;
    while i < b.models.len()
        invariant
            i <= b.models@.len(),
            forall|k: int|
                0 <= k < i ==> (#[trigger] b.models@[k]).faces_start + b.models@[k].faces_count
                    <= b.faces@.len() && vec3_bounded(b.models@[k].origin, 0x10_0000),
        decreases b.models@.len() - i,
    {
        let m = &b.models[i];
        if m.faces_start > b.faces.len() || b.faces.len() - m.faces_start < m.faces_count {
            return false;
        }
        if !vec3_in_bounds(&m.origin, 0x10_0000) {
            return false;
        }
        i = i + 1;
    }
    true
}

} // verus!

verus! {

/// `s1` is a prefix of `s2`.
pub open spec fn seq_prefix<T>(s1: Seq<T>, s2: Seq<T>) -> bool {
    s1.len() <= s2.len() && forall|k: int| 0 <= k < s1.len() ==> s1[k] == s2[k]
}

/// The tiles requested up to any position are a prefix of the whole
/// sizing pass.
proof fn lemma_tiles_extends(b: BspFile, mi: int, fj: int)
    requires
        level_wf(b),
        0 <= mi <= b.models@.len(),
        0 <= fj,
        mi < b.models@.len() ==> fj <= b.models@[mi].faces_count,
        mi == b.models@.len() ==> fj == 0,
    ensures
        seq_prefix(tiles_upto(b, mi, fj), spec_light_tiles(b)),
    decreases b.models@.len() - mi, (if mi < b.models@.len() {
        b.models@[mi].faces_count as int - fj
    } else {
        0int
    }),
{
    if mi == b.models@.len() {
    } else if fj == b.models@[mi].faces_count {
        lemma_tiles_extends(b, mi + 1, 0);
        assert(tiles_upto(b, mi + 1, 0) == tiles_upto(b, mi, fj));
    } else {
        lemma_tiles_extends(b, mi, fj + 1);
        assert(seq_prefix(tiles_upto(b, mi, fj), tiles_upto(b, mi, fj + 1)));
    }
}

/// An insertion keeps every element of the list and adds the new one.
proof fn lemma_insert_desc_contains(s: Seq<TSortable>, x: TSortable)
    ensures
        forall|j: int|
            0 <= j < s.len() ==> exists|i: int|
                0 <= i < spec_insert_desc(s, x).len() && spec_insert_desc(s, x)[i] == #[trigger] s[j],
        exists|i: int|
            0 <= i < spec_insert_desc(s, x).len() && #[trigger] spec_insert_desc(s, x)[i] == x,
    decreases s.len(),
{
    if s.len() == 0 {
        assert(spec_insert_desc(s, x)[0] == x);
    } else if area(s.last()) >= area(x) {
        assert forall|j: int| 0 <= j < s.len() implies exists|i: int|
            0 <= i < spec_insert_desc(s, x).len() && spec_insert_desc(s, x)[i] == #[trigger] s[j] by {
            assert(spec_insert_desc(s, x)[j] == s[j]);
        }
        assert(spec_insert_desc(s, x)[s.len() as int] == x);
    } else {
        lemma_insert_desc_contains(s.drop_last(), x);
        let inner = spec_insert_desc(s.drop_last(), x);
        assert forall|j: int| 0 <= j < s.len() implies exists|i: int|
            0 <= i < spec_insert_desc(s, x).len() && spec_insert_desc(s, x)[i] == #[trigger] s[j] by {
            if j == s.len() - 1 {
                assert(spec_insert_desc(s, x)[inner.len() as int] == s[j]);
            } else {
                assert(s.drop_last()[j] == s[j]);
                let i = choose|i: int| 0 <= i < inner.len() && inner[i] == s.drop_last()[j];
                assert(spec_insert_desc(s, x)[i] == s[j]);
            }
        }
        let i = choose|i: int| 0 <= i < inner.len() && #[trigger] inner[i] == x;
        assert(spec_insert_desc(s, x)[i] == x);
    }
}

/// Sorting loses no element.
proof fn lemma_sort_desc_contains(s: Seq<TSortable>)
    ensures
        forall|j: int|
            0 <= j < s.len() ==> exists|i: int|
                0 <= i < spec_sort_desc(s).len() && spec_sort_desc(s)[i] == #[trigger] s[j],
    decreases s.len(),
{
    if s.len() > 0 {
        lemma_sort_desc_contains(s.drop_last());
        let inner = spec_sort_desc(s.drop_last());
        lemma_insert_desc_contains(inner, s.last());
        let r = spec_insert_desc(inner, s.last());
        assert forall|j: int| 0 <= j < s.len() implies exists|i: int|
            0 <= i < spec_sort_desc(s).len() && spec_sort_desc(s)[i] == #[trigger] s[j] by {
            if j == s.len() - 1 {
                let i = choose|i: int| 0 <= i < r.len() && #[trigger] r[i] == s.last();
                assert(spec_sort_desc(s)[i] == s[j]);
            } else {
                assert(s.drop_last()[j] == s[j]);
                let m = choose|m: int| 0 <= m < inner.len() && inner[m] == s.drop_last()[j];
                let i = choose|i: int| 0 <= i < r.len() && r[i] == inner[m];
                assert(spec_sort_desc(s)[i] == s[j]);
            }
        }
    }
}

/// A successful lightmap packing records an entry for every tile's
/// lightmap offset.
proof fn lemma_lights_fold_keys(lm: Seq<u8>, sorted: Seq<TSortable>, n: int)
    requires
        0 <= n <= sorted.len(),
        spec_lights_fold(lm, sorted, n) is Ok,
    ensures
        forall|k: int|
            0 <= k < n ==> exists|e: int|
                0 <= e < spec_lights_fold(lm, sorted, n).unwrap().table.len()
                    && spec_lights_fold(lm, sorted, n).unwrap().table[e].0 == (
                #[trigger] sorted[k]).idx,
    decreases n,
{
    if n > 0 {
        lemma_lights_fold_keys(lm, sorted, n - 1);
        let prev = spec_lights_fold(lm, sorted, n - 1).unwrap().table;
        let table = spec_lights_fold(lm, sorted, n).unwrap().table;
        assert(table == prev.push((sorted[n - 1].idx, spec_find_rect(
            spec_lights_fold(lm, sorted, n - 1).unwrap().atlas,
            sorted[n - 1].width as int,
            sorted[n - 1].height as int,
        ).unwrap())));
        assert forall|k: int| 0 <= k < n implies exists|e: int|
            0 <= e < table.len() && table[e].0 == (#[trigger] sorted[k]).idx by {
            if k == n - 1 {
                assert(table[table.len() - 1].0 == sorted[k].idx);
            } else {
                let e = choose|e: int|
                    0 <= e < prev.len() && prev[e].0 == (#[trigger] sorted[k]).idx;
                assert(table[e].0 == sorted[k].idx);
            }
        }
    }
}

/// A key with an entry is found.
proof fn lemma_lookup_some(table: Seq<(i32, Rect)>, key: i32)
    requires
        exists|e: int| 0 <= e < table.len() && (#[trigger] table[e]).0 == key,
    ensures
        spec_lookup(table, key) is Some,
    decreases table.len(),
{
    if table.last().0 != key {
        let e = choose|e: int| 0 <= e < table.len() && (#[trigger] table[e]).0 == key;
        assert(table.drop_last()[e] == table[e]);
        lemma_lookup_some(table.drop_last(), key);
    }
}

/// Law (no missing tile): when the lightmap packing of a level succeeds,
/// every face the sizing pass included finds its tile in the table, so the
/// emission pass's sentinel fallback never fires for a sized face.
pub proof fn lemma_sized_face_finds_tile(b: BspFile, mi: int, fj: int)
    requires
        level_wf(b),
        0 <= mi < b.models@.len(),
        0 <= fj < b.models@[mi].faces_count,
        face_sized(b, b.faces@[b.models@[mi].faces_start + fj]),
        spec_lights_fold(
            b.light_maps@,
            spec_sorted_tiles(b),
            spec_sorted_tiles(b).len() as int,
        ) is Ok,
    ensures
        ({
            let table = spec_lights_fold(
                b.light_maps@,
                spec_sorted_tiles(b),
                spec_sorted_tiles(b).len() as int,
            ).unwrap().table;
            spec_lookup(table, b.faces@[b.models@[mi].faces_start + fj].light_map) is Some
        }),
{
    let f = b.faces@[b.models@[mi].faces_start + fj];
    let tiles = spec_light_tiles(b);
    let sorted = spec_sorted_tiles(b);
    // The face's tile is in the sizing pass.
    assert(tiles_upto(b, mi, fj + 1).last() == face_tile(b, f));
    lemma_tiles_extends(b, mi, fj + 1);
    let j = tiles_upto(b, mi, fj + 1).len() - 1;
    assert(tiles[j] == face_tile(b, f));
    // Sorting keeps it.
    lemma_sort_desc_contains(tiles);
    let i = choose|i: int| 0 <= i < sorted.len() && sorted[i] == tiles[j];
    // The packing records its offset.
    lemma_lights_fold_keys(b.light_maps@, sorted, sorted.len() as int);
    let table = spec_lights_fold(b.light_maps@, sorted, sorted.len() as int).unwrap().table;
    assert(exists|e: int| 0 <= e < table.len() && (#[trigger] table[e]).0 == f.light_map) by {
        let e = choose|e: int| 0 <= e < table.len() && table[e].0 == (#[trigger] sorted[i]).idx;
        assert(table[e].0 == f.light_map);
    }
    lemma_lookup_some(table, f.light_map);
}

} // verus!
