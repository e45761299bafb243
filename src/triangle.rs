//! What filling a triangle does to the depth buffer and the framebuffer,
//! stated pixel by pixel, and the laws that follow.

use vstd::prelude::*;
use vstd::set_lib::{set_int_range, lemma_int_range, lemma_len_union, lemma_len_subset};
use crate::geom::{Vec2i, Vec3i, lerp, min2, max2, lemma_lerp_between, lemma_lerp_const, lemma_lerp_ends};
use crate::vbuffer::{Color, VBuffer};

verus! {

/// The stable ascending order of three points by row: `sort_perm(t)[k]` is
/// the index in `t` of the `k`-th point, equal rows keeping their order.
pub open spec fn sort_perm(t: Seq<Vec3i>) -> Seq<int> {
    let (a, b, c) = (t[0].y, t[1].y, t[2].y);
    if a <= b && b <= c {
        seq![0, 1, 2]
    } else if a <= c && c < b {
        seq![0, 2, 1]
    } else if b < a && a <= c {
        seq![1, 0, 2]
    } else if b <= c && c < a {
        seq![1, 2, 0]
    } else if c < a && a <= b {
        seq![2, 0, 1]
    } else {
        seq![2, 1, 0]
    }
}

/// The three points in stable ascending order of row.
pub open spec fn sorted_pts(t: Seq<Vec3i>) -> Seq<Vec3i> {
    let p = sort_perm(t);
    seq![t[p[0]], t[p[1]], t[p[2]]]
}

/// The texture coordinates, carried along with their points.
pub open spec fn sorted_uvs(t: Seq<Vec3i>, uv: Seq<Vec2i>) -> Seq<Vec2i> {
    let p = sort_perm(t);
    seq![uv[p[0]], uv[p[1]], uv[p[2]]]
}

/// All three points on one row: the triangle has no height.
pub open spec fn flat(t: Seq<Vec3i>) -> bool {
    t[0].y == t[1].y && t[0].y == t[2].y
}

/// Attribute `c` of sorted corner `k`: 0 column, 1 depth, 2 texel column,
/// 3 texel row.
pub open spec fn corner(s: Seq<Vec3i>, su: Seq<Vec2i>, k: int, c: int) -> int {
    if c == 0 {
        s[k].x as int
    } else if c == 1 {
        s[k].z as int
    } else if c == 2 {
        su[k].x as int
    } else {
        su[k].y as int
    }
}

/// Number of scanlines of a sorted triangle.
pub open spec fn rows(s: Seq<Vec3i>) -> int {
    s[2].y - s[0].y
}

/// Scanline `i` lies in the upper half, bounded by the edge from the middle
/// corner to the last; always so when the first two corners share a row.
pub open spec fn upper_half(s: Seq<Vec3i>, i: int) -> bool {
    i > s[1].y - s[0].y || s[1].y == s[0].y
}

/// Attribute `c` where scanline `i` meets the long edge, first to last corner.
pub open spec fn long_edge(s: Seq<Vec3i>, su: Seq<Vec2i>, i: int, c: int) -> int {
    lerp(corner(s, su, 0, c), corner(s, su, 2, c), i, rows(s))
}

/// Attribute `c` where scanline `i` meets the short edge of its half.
pub open spec fn short_edge(s: Seq<Vec3i>, su: Seq<Vec2i>, i: int, c: int) -> int {
    if upper_half(s, i) {
        lerp(corner(s, su, 1, c), corner(s, su, 2, c), i - (s[1].y - s[0].y), s[2].y - s[1].y)
    } else {
        lerp(corner(s, su, 0, c), corner(s, su, 1, c), i, s[1].y - s[0].y)
    }
}

/// Attribute `c` at the left end of scanline `i`.
pub open spec fn span_start(s: Seq<Vec3i>, su: Seq<Vec2i>, i: int, c: int) -> int {
    if long_edge(s, su, i, 0) > short_edge(s, su, i, 0) {
        short_edge(s, su, i, c)
    } else {
        long_edge(s, su, i, c)
    }
}

/// Attribute `c` at the right end of scanline `i`.
pub open spec fn span_end(s: Seq<Vec3i>, su: Seq<Vec2i>, i: int, c: int) -> int {
    if long_edge(s, su, i, 0) > short_edge(s, su, i, 0) {
        long_edge(s, su, i, c)
    } else {
        short_edge(s, su, i, c)
    }
}

/// Pixel `(x, y)` is scanned: its row is one of the triangle's scanlines and
/// its column lies in that scanline's half-open span.
pub open spec fn in_span(s: Seq<Vec3i>, su: Seq<Vec2i>, x: int, y: int) -> bool {
    let i = y - s[0].y;
    0 <= i < rows(s) && span_start(s, su, i, 0) <= x < span_end(s, su, i, 0)
}

/// Attribute `c` blended across the span at column `x` of row `y`.
pub open spec fn blend_at(s: Seq<Vec3i>, su: Seq<Vec2i>, x: int, y: int, c: int) -> int {
    let i = y - s[0].y;
    let a = span_start(s, su, i, 0);
    lerp(span_start(s, su, i, c), span_end(s, su, i, c), x - a, span_end(s, su, i, 0) - a)
}

/// The triangle `t` (any vertex order) scans pixel `(x, y)`.
pub open spec fn covers(t: Seq<Vec3i>, uv: Seq<Vec2i>, x: int, y: int) -> bool {
    in_span(sorted_pts(t), sorted_uvs(t, uv), x, y)
}

/// Interpolated depth of the fragment at `(x, y)`.
pub open spec fn depth_at(t: Seq<Vec3i>, uv: Seq<Vec2i>, x: int, y: int) -> int {
    blend_at(sorted_pts(t), sorted_uvs(t, uv), x, y, 1)
}

/// The colour a fragment gets: the nearest texel of the texture at `(u, v)`
/// when there is a texture and the texel lies in it, else the flat colour.
pub open spec fn texel(tex: Option<VBuffer>, u: int, v: int, color: Color) -> Color {
    match tex {
        Some(b) => if 0 <= u < b.width && 0 <= v < b.height && v * b.width + u < b.data.len() {
            b.data@[v * b.width + u]
        } else {
            color
        },
        None => color,
    }
}

/// The colour of the fragment at `(x, y)`.
pub open spec fn fragment_color(
    t: Seq<Vec3i>,
    uv: Seq<Vec2i>,
    x: int,
    y: int,
    color: Color,
    tex: Option<VBuffer>,
) -> Color {
    let s = sorted_pts(t);
    let su = sorted_uvs(t, uv);
    texel(tex, blend_at(s, su, x, y, 2), blend_at(s, su, x, y, 3), color)
}

/// The fragment at data index `idx` of a `w`-wide grid exists and is
/// strictly nearer than the depth stored there.
pub open spec fn wins(zb: Seq<i32>, w: int, t: Seq<Vec3i>, uv: Seq<Vec2i>, idx: int) -> bool {
    covers(t, uv, idx % w, idx / w) && zb[idx] < depth_at(t, uv, idx % w, idx / w)
}

/// The depth buffer after filling the triangle.
pub open spec fn depth_after(zb: Seq<i32>, w: int, t: Seq<Vec3i>, uv: Seq<Vec2i>) -> Seq<i32> {
    Seq::new(
        zb.len(),
        |idx: int|
            if wins(zb, w, t, uv, idx) {
                depth_at(t, uv, idx % w, idx / w) as i32
            } else {
                zb[idx]
            },
    )
}

/// The framebuffer after filling the triangle.
pub open spec fn color_after(
    zb: Seq<i32>,
    img: Seq<Color>,
    w: int,
    t: Seq<Vec3i>,
    uv: Seq<Vec2i>,
    color: Color,
    tex: Option<VBuffer>,
) -> Seq<Color> {
    Seq::new(
        img.len(),
        |idx: int|
            if wins(zb, w, t, uv, idx) {
                fragment_color(t, uv, idx % w, idx / w, color, tex)
            } else {
                img[idx]
            },
    )
}

/// Sorting reorders the three corners without loss, into ascending rows,
/// and keeps corners of equal rows in their input order.
pub proof fn lemma_sorted(t: Seq<Vec3i>)
    requires
        t.len() == 3,
    ensures
        ({
            let p = sort_perm(t);
            let s = sorted_pts(t);
            &&& p.len() == 3
            &&& forall|k: int| 0 <= k < 3 ==> 0 <= #[trigger] p[k] < 3 && s[k] == t[p[k]]
            &&& p[0] != p[1] && p[0] != p[2] && p[1] != p[2]
            &&& s[0].y <= s[1].y <= s[2].y
            &&& forall|k: int, j: int|
                0 <= k < j < 3 && #[trigger] s[k].y == #[trigger] s[j].y ==> p[k] < p[j]
        }),
{
}

/// A triangle whose three corners share a row plots nothing.
pub proof fn lemma_flat_plots_nothing(
    zb: Seq<i32>,
    img: Seq<Color>,
    w: int,
    t: Seq<Vec3i>,
    uv: Seq<Vec2i>,
    color: Color,
    tex: Option<VBuffer>,
)
    requires
        t.len() == 3,
        uv.len() == 3,
        zb.len() == img.len(),
        flat(t),
    ensures
        forall|x: int, y: int| !covers(t, uv, x, y),
        depth_after(zb, w, t, uv) == zb,
        color_after(zb, img, w, t, uv, color, tex) == img,
{
    assert(rows(sorted_pts(t)) == 0);
    assert(depth_after(zb, w, t, uv) =~= zb);
    assert(color_after(zb, img, w, t, uv, color, tex) =~= img);
}

pub open spec fn min3(a: int, b: int, c: int) -> int {
    min2(min2(a, b), c)
}

pub open spec fn max3(a: int, b: int, c: int) -> int {
    max2(max2(a, b), c)
}

/// Where a scanline meets an edge, every attribute lies between the least
/// and the greatest of the corners' values.
proof fn lemma_edges_in_hull(s: Seq<Vec3i>, su: Seq<Vec2i>, i: int, c: int)
    requires
        s.len() == 3,
        su.len() == 3,
        s[0].y <= s[1].y <= s[2].y,
        0 <= i < rows(s),
    ensures
        ({
            let lo = min3(corner(s, su, 0, c), corner(s, su, 1, c), corner(s, su, 2, c));
            let hi = max3(corner(s, su, 0, c), corner(s, su, 1, c), corner(s, su, 2, c));
            &&& lo <= long_edge(s, su, i, c) <= hi
            &&& lo <= short_edge(s, su, i, c) <= hi
            &&& lo <= span_start(s, su, i, c) <= hi
            &&& lo <= span_end(s, su, i, c) <= hi
        }),
{
    let m = s[1].y - s[0].y;
    lemma_lerp_between(corner(s, su, 0, c), corner(s, su, 2, c), i, rows(s));
    if upper_half(s, i) {
        lemma_lerp_between(corner(s, su, 1, c), corner(s, su, 2, c), i - m, s[2].y - s[1].y);
    } else {
        lemma_lerp_between(corner(s, su, 0, c), corner(s, su, 1, c), i, m);
    }
}

/// Every pixel that a triangle scans lies in its bounding box, short of its
/// last column and last row: the pixels it can plot are at most as many as
/// the box holds.
pub proof fn lemma_covers_in_bbox(t: Seq<Vec3i>, uv: Seq<Vec2i>, x: int, y: int)
    requires
        t.len() == 3,
        uv.len() == 3,
        covers(t, uv, x, y),
    ensures
        min3(t[0].x as int, t[1].x as int, t[2].x as int) <= x < max3(
            t[0].x as int,
            t[1].x as int,
            t[2].x as int,
        ),
        min3(t[0].y as int, t[1].y as int, t[2].y as int) <= y < max3(
            t[0].y as int,
            t[1].y as int,
            t[2].y as int,
        ),
{
    let s = sorted_pts(t);
    let su = sorted_uvs(t, uv);
    lemma_sorted(t);
    lemma_edges_in_hull(s, su, y - s[0].y, 0);
}

/// A triangle scans at least one pixel when its middle corner (by row) lies
/// above its last row and off the column where the long edge crosses the
/// middle corner's row.
pub proof fn lemma_scans_a_pixel(t: Seq<Vec3i>, uv: Seq<Vec2i>)
    requires
        t.len() == 3,
        uv.len() == 3,
        sorted_pts(t)[1].y < sorted_pts(t)[2].y,
        long_edge(sorted_pts(t), sorted_uvs(t, uv), sorted_pts(t)[1].y - sorted_pts(t)[0].y, 0)
            != sorted_pts(t)[1].x,
    ensures
        exists|x: int, y: int| covers(t, uv, x, y),
{
    let s = sorted_pts(t);
    let su = sorted_uvs(t, uv);
    lemma_sorted(t);
    let m = s[1].y - s[0].y;
    if m > 0 {
        lemma_lerp_ends(corner(s, su, 0, 0), corner(s, su, 1, 0), m);
    } else {
        lemma_lerp_ends(corner(s, su, 1, 0), corner(s, su, 2, 0), s[2].y - s[1].y);
    }
    assert(short_edge(s, su, m, 0) == s[1].x);
    let x = span_start(s, su, m, 0);
    assert(covers(t, uv, x, s[1].y as int));
}

/// All of a triangle's fragments have the depth its three corners share.
proof fn lemma_constant_depth(t: Seq<Vec3i>, uv: Seq<Vec2i>, x: int, y: int)
    requires
        t.len() == 3,
        uv.len() == 3,
        t[0].z == t[1].z && t[1].z == t[2].z,
        covers(t, uv, x, y),
    ensures
        depth_at(t, uv, x, y) == t[0].z,
{
    let s = sorted_pts(t);
    let su = sorted_uvs(t, uv);
    lemma_sorted(t);
    let i = y - s[0].y;
    lemma_edges_in_hull(s, su, i, 1);
    let a = span_start(s, su, i, 0);
    lemma_lerp_const(t[0].z as int, x - a, span_end(s, su, i, 0) - a);
}

/// Two triangles of constant depths `d1 < d2` that both scan a pixel, whose
/// stored depth is below `d2`, leave it with the nearer one's fragment and
/// depth whichever of them is filled first.
pub proof fn lemma_depth_order(
    zb: Seq<i32>,
    img: Seq<Color>,
    w: int,
    t1: Seq<Vec3i>,
    uv1: Seq<Vec2i>,
    c1: Color,
    tex1: Option<VBuffer>,
    t2: Seq<Vec3i>,
    uv2: Seq<Vec2i>,
    c2: Color,
    tex2: Option<VBuffer>,
    idx: int,
)
    requires
        w > 0,
        zb.len() == img.len(),
        0 <= idx < zb.len(),
        t1.len() == 3 && uv1.len() == 3 && t2.len() == 3 && uv2.len() == 3,
        t1[0].z == t1[1].z && t1[1].z == t1[2].z,
        t2[0].z == t2[1].z && t2[1].z == t2[2].z,
        t1[0].z < t2[0].z,
        covers(t1, uv1, idx % w, idx / w),
        covers(t2, uv2, idx % w, idx / w),
        zb[idx] < t2[0].z,
    ensures
        ({
            let frag = fragment_color(t2, uv2, idx % w, idx / w, c2, tex2);
            let zb1 = depth_after(zb, w, t1, uv1);
            let img1 = color_after(zb, img, w, t1, uv1, c1, tex1);
            let zb2 = depth_after(zb, w, t2, uv2);
            let img2 = color_after(zb, img, w, t2, uv2, c2, tex2);
            &&& color_after(zb1, img1, w, t2, uv2, c2, tex2)[idx] == frag
            &&& color_after(zb2, img2, w, t1, uv1, c1, tex1)[idx] == frag
            &&& depth_after(zb1, w, t2, uv2)[idx] == t2[0].z
            &&& depth_after(zb2, w, t1, uv1)[idx] == t2[0].z
        }),
{
    let x = idx % w;
    let y = idx / w;
    lemma_constant_depth(t1, uv1, x, y);
    lemma_constant_depth(t2, uv2, x, y);
}

/// The data indices whose depth and colour filling the triangle changes.
pub open spec fn touched(zb: Seq<i32>, w: int, t: Seq<Vec3i>, uv: Seq<Vec2i>) -> Set<int> {
    Set::new(|idx: int| 0 <= idx < zb.len() && wins(zb, w, t, uv, idx))
}

/// Indices of columns `[x0, x1)` on the `k` rows from `y0` of a `w`-wide grid.
spec fn band(w: int, x0: int, x1: int, y0: int, k: nat) -> Set<int>
    decreases k,
{
    if k == 0 {
        Set::empty()
    } else {
        band(w, x0, x1, y0, (k - 1) as nat).union(
            set_int_range((y0 + k - 1) * w + x0, (y0 + k - 1) * w + x1),
        )
    }
}

proof fn lemma_band_len(w: int, x0: int, x1: int, y0: int, k: nat)
    requires
        x0 <= x1,
    ensures
        band(w, x0, x1, y0, k).finite(),
        band(w, x0, x1, y0, k).len() <= k * (x1 - x0),
    decreases k,
{
    if k > 0 {
        let r = set_int_range((y0 + k - 1) * w + x0, (y0 + k - 1) * w + x1);
        lemma_band_len(w, x0, x1, y0, (k - 1) as nat);
        lemma_int_range((y0 + k - 1) * w + x0, (y0 + k - 1) * w + x1);
        lemma_len_union(band(w, x0, x1, y0, (k - 1) as nat), r);
        assert((k - 1) * (x1 - x0) + (x1 - x0) == k * (x1 - x0)) by (nonlinear_arith);
    }
}

proof fn lemma_in_band(w: int, x0: int, x1: int, y0: int, k: nat, x: int, y: int)
    requires
        x0 <= x < x1,
        y0 <= y < y0 + k,
    ensures
        band(w, x0, x1, y0, k).contains(y * w + x),
    decreases k,
{
    if y < y0 + k - 1 {
        lemma_in_band(w, x0, x1, y0, (k - 1) as nat, x, y);
    }
}

/// Filling a triangle changes at most as many pixels as its bounding box
/// holds, short of its last row and column.
pub proof fn lemma_touched_within_bbox(zb: Seq<i32>, w: int, t: Seq<Vec3i>, uv: Seq<Vec2i>)
    requires
        t.len() == 3,
        uv.len() == 3,
        w > 0,
    ensures
        touched(zb, w, t, uv).finite(),
        touched(zb, w, t, uv).len() <= (max3(t[0].x as int, t[1].x as int, t[2].x as int) - min3(
            t[0].x as int,
            t[1].x as int,
            t[2].x as int,
        )) * (max3(t[0].y as int, t[1].y as int, t[2].y as int) - min3(
            t[0].y as int,
            t[1].y as int,
            t[2].y as int,
        )),
{
    let x0 = min3(t[0].x as int, t[1].x as int, t[2].x as int);
    let x1 = max3(t[0].x as int, t[1].x as int, t[2].x as int);
    let y0 = min3(t[0].y as int, t[1].y as int, t[2].y as int);
    let y1 = max3(t[0].y as int, t[1].y as int, t[2].y as int);
    let k = (y1 - y0) as nat;
    let b = band(w, x0, x1, y0, k);
    let tt = touched(zb, w, t, uv);
    assert forall|idx: int| tt.contains(idx) implies b.contains(idx) by {
        let x = idx % w;
        let y = idx / w;
        lemma_covers_in_bbox(t, uv, x, y);
        vstd::arithmetic::div_mod::lemma_fundamental_div_mod(idx, w);
        assert(idx == y * w + x) by (nonlinear_arith)
            requires
                idx == w * (idx / w) + idx % w,
                x == idx % w,
                y == idx / w,
        ;
        lemma_in_band(w, x0, x1, y0, k, x, y);
    }
    lemma_band_len(w, x0, x1, y0, k);
    lemma_len_subset(tt, b);
}

} // verus!
