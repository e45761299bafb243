//! Packed colours and the framebuffer they are drawn into.

use vstd::prelude::*;
use vstd::arithmetic::div_mod::{lemma_fundamental_div_mod, lemma_fundamental_div_mod_converse};
use crate::geom::{Vec2i, Vec3i, lerp, lerp_i32};
use crate::tga::{TGA, decode};
use crate::line::{line_frame, line_minor, line_pixels, line_steep};
use crate::triangle::{
    sorted_pts, sorted_uvs, flat, rows, upper_half, long_edge, short_edge,
    span_start, span_end, texel, in_span, blend_at, depth_after, color_after, fragment_color,
    lemma_flat_plots_nothing,
};

verus! {

/// A colour packed as `0xRRGGBBAA`.
#[derive(Clone, Copy, Debug, PartialEq, Eq, Structural)]
pub struct Color(pub u32);

/// The packed value of the channels `r`, `g`, `b`, `a`.
pub open spec fn pack(r: u8, g: u8, b: u8, a: u8) -> u32 {
    (r * 0x100_0000 + g * 0x1_0000 + b * 0x100 + a) as u32
}

/// Byte `k` of a packed value, counting from the least significant.
pub open spec fn channel(v: u32, k: int) -> u8 {
    if k == 0 {
        (v % 0x100) as u8
    } else if k == 1 {
        ((v / 0x100) % 0x100) as u8
    } else if k == 2 {
        ((v / 0x1_0000) % 0x100) as u8
    } else {
        (v / 0x100_0000) as u8
    }
}

impl Color {
    pub fn new(r: u8, g: u8, b: u8, a: u8) -> (c: Color)
        ensures
            c.0 == pack(r, g, b, a),
            c.0 == r * 0x100_0000 + g * 0x1_0000 + b * 0x100 + a,
    {
        Color((r as u32) * 0x100_0000 + (g as u32) * 0x1_0000 + (b as u32) * 0x100 + (a as u32))
    }

    /// Channel `idx`, least significant first: alpha, blue, green, red.
    pub fn get(&self, idx: usize) -> (r: Option<u8>)
        ensures
            idx < 4 ==> r == Some(channel(self.0, idx as int)),
            idx >= 4 ==> r is None,
    {
        match idx {
            0 => Some((self.0 % 0x100) as u8),
            1 => Some(((self.0 / 0x100) % 0x100) as u8),
            2 => Some(((self.0 / 0x1_0000) % 0x100) as u8),
            3 => Some((self.0 / 0x100_0000) as u8),
            _ => None,
        }
    }
}

/// A `width` by `height` grid of colours, row-major, origin at the top left.
#[derive(Clone, Debug, PartialEq, Eq)]
pub struct VBuffer {
    pub width: u32,
    pub height: u32,
    pub data: Vec<Color>,
}

/// Whether `(x, y)` lies on a `w` by `h` grid.
pub open spec fn on_grid(w: int, h: int, x: int, y: int) -> bool {
    0 <= x < w && 0 <= y < h
}

/// Whether one of `pixels` that lies on the grid has index `idx`.
pub open spec fn painted(w: int, h: int, pixels: Seq<(int, int)>, idx: int) -> bool {
    exists|k: int|
        0 <= k < pixels.len() && on_grid(w, h, #[trigger] pixels[k].0, pixels[k].1) && pixels[k].1
            * w + pixels[k].0 == idx
}

/// `data` after plotting each of `pixels` in colour `c`; those off the grid
/// are dropped.
pub open spec fn paint(data: Seq<Color>, w: int, h: int, pixels: Seq<(int, int)>, c: Color) -> Seq<
    Color,
> {
    Seq::new(data.len(), |idx: int| if painted(w, h, pixels, idx) { c } else { data[idx] })
}

/// A pixel on the grid has an index inside the grid's data.
pub proof fn lemma_index_in_grid(w: int, h: int, x: int, y: int)
    requires
        on_grid(w, h, x, y),
    ensures
        0 <= y * w + x < w * h,
{
    assert(0 <= y * w + x < w * h) by (nonlinear_arith)
        requires
            0 <= x < w,
            0 <= y < h,
    ;
}

/// Swaps corners `i` and `j` when `i` lies on a lower row than `j`.
fn order_pair(t: &mut Vec<Vec3i>, uv: &mut Vec<Vec2i>, i: usize, j: usize)
    requires
        old(t).len() == 3,
        old(uv).len() == 3,
        i < 3,
        j < 3,
        i != j,
    ensures
        (final(t)@, final(uv)@) == (if old(t)@[i as int].y > old(t)@[j as int].y {
            (
                old(t)@.update(i as int, old(t)@[j as int]).update(j as int, old(t)@[i as int]),
                old(uv)@.update(i as int, old(uv)@[j as int]).update(j as int, old(uv)@[i as int]),
            )
        } else {
            (old(t)@, old(uv)@)
        }),
{
    if t[i].y > t[j].y {
        let a = t[i];
        let b = t[j];
        t.set(i, b);
        t.set(j, a);
        let a = uv[i];
        let b = uv[j];
        uv.set(i, b);
        uv.set(j, a);
    }
}

/// Sorts the corners by row, stably, carrying the texture coordinates along.
fn sort_corners(t: &mut Vec<Vec3i>, uv: &mut Vec<Vec2i>)
    requires
        old(t).len() == 3,
        old(uv).len() == 3,
    ensures
        final(t)@ == sorted_pts(old(t)@),
        final(uv)@ == sorted_uvs(old(t)@, old(uv)@),
{
    let ghost t0 = t@;
    let ghost uv0 = uv@;
    order_pair(t, uv, 0, 1);
    order_pair(t, uv, 1, 2);
    order_pair(t, uv, 0, 1);
    assert(t@ =~= sorted_pts(t0));
    assert(uv@ =~= sorted_uvs(t0, uv0));
}

/// One end of a scanline span: column, depth and texel coordinates.
#[derive(Clone, Copy)]
struct Bound {
    x: i32,
    z: i32,
    u: i32,
    v: i32,
}

/// `l` and `r` are the left and right ends of scanline `i`.
spec fn bounds_of_row(l: Bound, r: Bound, s: Seq<Vec3i>, su: Seq<Vec2i>, i: int) -> bool {
    &&& l.x == span_start(s, su, i, 0) && l.z == span_start(s, su, i, 1)
    &&& l.u == span_start(s, su, i, 2) && l.v == span_start(s, su, i, 3)
    &&& r.x == span_end(s, su, i, 0) && r.z == span_end(s, su, i, 1)
    &&& r.u == span_end(s, su, i, 2) && r.v == span_end(s, su, i, 3)
}

/// The point `k / n` of the way along the edge from `p` to `q`.
fn edge_point(p: Vec3i, pu: Vec2i, q: Vec3i, qu: Vec2i, k: i64, n: i64) -> (r: Bound)
    requires
        0 <= k <= n,
        0 < n <= 0x1_0000_0000,
    ensures
        r.x == lerp(p.x as int, q.x as int, k as int, n as int),
        r.z == lerp(p.z as int, q.z as int, k as int, n as int),
        r.u == lerp(pu.x as int, qu.x as int, k as int, n as int),
        r.v == lerp(pu.y as int, qu.y as int, k as int, n as int),
{
    Bound {
        x: lerp_i32(p.x, q.x, k, n),
        z: lerp_i32(p.z, q.z, k, n),
        u: lerp_i32(pu.x, qu.x, k, n),
        v: lerp_i32(pu.y, qu.y, k, n),
    }
}

/// Left and right ends of scanline `i` of a sorted triangle.
fn row_bounds(s: &Vec<Vec3i>, su: &Vec<Vec2i>, i: i64) -> (r: (Bound, Bound))
    requires
        s.len() == 3,
        su.len() == 3,
        s[0].y <= s[1].y <= s[2].y,
        0 <= i < rows(s@),
    ensures
        bounds_of_row(r.0, r.1, s@, su@, i as int),
{
    let total: i64 = s[2].y as i64 - s[0].y as i64;
    let mid: i64 = s[1].y as i64 - s[0].y as i64;
    let long = edge_point(s[0], su[0], s[2], su[2], i, total);
    let upper = i > mid || s[1].y == s[0].y;
    let short = if upper {
        edge_point(s[1], su[1], s[2], su[2], i - mid, s[2].y as i64 - s[1].y as i64)
    } else {
        edge_point(s[0], su[0], s[1], su[1], i, mid)
    };
    assert(upper == upper_half(s@, i as int));
    if long.x > short.x {
        (short, long)
    } else {
        (long, short)
    }
}

/// Column and row of a data index of a `w` by `h` grid.
proof fn lemma_grid_coords(w: int, h: int, idx: int)
    requires
        0 <= w,
        0 <= h,
        0 <= idx < w * h,
    ensures
        w > 0,
        0 <= idx % w < w,
        0 <= idx / w < h,
        idx == (idx / w) * w + idx % w,
{
    assert(w > 0) by (nonlinear_arith)
        requires
            0 <= idx < w * h,
            0 <= w,
            0 <= h,
    ;
    lemma_fundamental_div_mod(idx, w);
    assert(idx / w < h) by (nonlinear_arith)
        requires
            idx == w * (idx / w) + idx % w,
            0 <= idx % w,
            idx < w * h,
            w > 0,
    ;
    assert(0 <= idx / w) by (nonlinear_arith)
        requires
            idx == w * (idx / w) + idx % w,
            idx % w < w,
            0 <= idx,
            w > 0,
    ;
    assert(idx == (idx / w) * w + idx % w) by (nonlinear_arith)
        requires
            idx == w * (idx / w) + idx % w,
    ;
}

/// The index of `(x, y)` maps back to `(x, y)`.
proof fn lemma_coords_of(w: int, x: int, y: int)
    requires
        0 <= x < w,
    ensures
        (y * w + x) % w == x,
        (y * w + x) / w == y,
{
    lemma_fundamental_div_mod_converse(y * w + x, w, y, x);
}

/// Colour of a fragment with texel coordinates `(u, v)`.
fn shade(tex: &Option<VBuffer>, u: i32, v: i32, color: Color) -> (r: Color)
    ensures
        r == texel(*tex, u as int, v as int, color),
{
    match tex {
        Some(b) => {
            if 0 <= u && 0 <= v && (u as u32) < b.width && (v as u32) < b.height {
                proof {
                    assert((v as int) * (b.width as int) + (u as int) < 0x1_0000_0000 * 0x1_0000_0000int)
                        by (nonlinear_arith)
                        requires
                            0 <= v < 0x1_0000_0000,
                            0 <= u < b.width,
                            b.width <= 0xFFFF_FFFF,
                    ;
                    assert(0 <= (v as int) * (b.width as int)) by (nonlinear_arith)
                        requires
                            0 <= v,
                    ;
                }
                let idx: u64 = (v as u64) * (b.width as u64) + (u as u64);
                if idx < b.data.len() as u64 {
                    b.data[idx as usize]
                } else {
                    color
                }
            } else {
                color
            }
        },
        None => color,
    }
}

/// Pixel `idx` has been visited once scanlines before `i`, and columns of
/// scanline `i` before `x`, are done.
spec fn visited(s: Seq<Vec3i>, su: Seq<Vec2i>, w: int, idx: int, i: int, x: int) -> bool {
    let px = idx % w;
    let py = idx / w;
    in_span(s, su, px, py) && (py - s[0].y < i || (py - s[0].y == i && px < x))
}

/// Pixel `idx` holds the depth test's outcome if visited, else its old value.
spec fn cell_filled(
    zb0: Seq<i32>,
    img0: Seq<Color>,
    w: int,
    s: Seq<Vec3i>,
    su: Seq<Vec2i>,
    color: Color,
    tex: Option<VBuffer>,
    i: int,
    x: int,
    zb: Seq<i32>,
    img: Seq<Color>,
    idx: int,
) -> bool {
    let px = idx % w;
    let py = idx / w;
    let z = blend_at(s, su, px, py, 1);
    let hit = visited(s, su, w, idx, i, x) && zb0[idx] < z;
    &&& zb[idx] == (if hit {
        z as i32
    } else {
        zb0[idx]
    })
    &&& img[idx] == (if hit {
        texel(tex, blend_at(s, su, px, py, 2), blend_at(s, su, px, py, 3), color)
    } else {
        img0[idx]
    })
}

impl VBuffer {
    /// The data holds exactly one colour per pixel.
    pub open spec fn wf(&self) -> bool {
        self.data.len() == self.width * self.height
    }

    /// A buffer of the given size, every pixel opaque black.
    pub fn new(width: u32, height: u32) -> (r: VBuffer)
        requires
            width * height <= usize::MAX,
        ensures
            r.width == width,
            r.height == height,
            r.wf(),
            forall|i: int| 0 <= i < r.data.len() ==> r.data[i] == Color(0xFF),
    {
        let n: usize = (width as usize) * (height as usize);
        let mut data: Vec<Color> = Vec::with_capacity(n);
        let mut i: usize = 0;
        while i < n
            invariant
                i <= n,
                data.len() == i,
                forall|j: int| 0 <= j < i ==> data[j] == Color(0xFF),
            decreases n - i,
        {
            data.push(Color(0xFF));
            i += 1;
        }
        VBuffer { width, height, data }
    }

    /// The image held in the bytes of a TGA file; `None` when they hold none
    /// that the codec reads.
    pub fn load(bytes: &[u8]) -> (r: Option<VBuffer>)
        ensures
            match decode(bytes@) {
                Some((h, px)) => r is Some && r.unwrap().width == h.width && r.unwrap().height
                    == h.height && r.unwrap().data@ == px && r.unwrap().wf(),
                None => r is None,
            },
    {
        match TGA::load(bytes) {
            Some(file) => Some(
                VBuffer {
                    width: file.head.width as u32,
                    height: file.head.height as u32,
                    data: file.data,
                },
            ),
            None => None,
        }
    }

    /// Index of pixel `(x, y)` in `data`.
    pub fn trans(&self, x: u32, y: u32) -> (r: usize)
        requires
            y * self.width + x <= usize::MAX,
        ensures
            r == y * self.width + x,
    {
        proof {
            assert(0 <= y * self.width <= y * self.width + x) by (nonlinear_arith);
        }
        (y as usize) * (self.width as usize) + (x as usize)
    }

    /// Sets pixel `(x, y)`; a pixel off the grid is silently dropped.
    pub fn plot(&mut self, x: u32, y: u32, color: Color)
        requires
            old(self).wf(),
        ensures
            final(self).width == old(self).width,
            final(self).height == old(self).height,
            final(self).data@ == (if x < old(self).width && y < old(self).height {
                old(self).data@.update(y * old(self).width + x, color)
            } else {
                old(self).data@
            }),
    {
        if x >= self.width || y >= self.height {
            return;
        } else {
            proof {
                assert(y * self.width + x < self.width * self.height) by (nonlinear_arith)
                    requires
                        x < self.width,
                        y < self.height,
                ;
            }
            let idx = self.trans(x, y);
            self.data.set(idx, color);
        }
    }

    /// Draws the segment from `(x0, y0)` towards `(x1, y1)`: one pixel per
    /// step of the axis of greater extent, the far end excluded.
    pub fn line(&mut self, x0: u32, y0: u32, x1: u32, y1: u32, color: &Color)
        requires
            old(self).wf(),
        ensures
            final(self).width == old(self).width,
            final(self).height == old(self).height,
            final(self).data@ == paint(
                old(self).data@,
                old(self).width as int,
                old(self).height as int,
                line_pixels(x0 as int, y0 as int, x1 as int, y1 as int),
                *color,
            ),
    {
        let ghost pixels = line_pixels(x0 as int, y0 as int, x1 as int, y1 as int);
        let ghost w = self.width as int;
        let ghost h = self.height as int;
        let ghost data0 = self.data@;
        let dx = if x0 > x1 { x0 - x1 } else { x1 - x0 };
        let dy = if y0 > y1 { y0 - y1 } else { y1 - y0 };
        let steep = dx < dy;
        let (mut a0, mut b0, mut a1, mut b1) = if steep { (y0, x0, y1, x1) } else { (x0, y0, x1, y1) };
        if a0 > a1 {
            let t = a0;
            a0 = a1;
            a1 = t;
            let t = b0;
            b0 = b1;
            b1 = t;
        }
        assert(line_frame(x0 as int, y0 as int, x1 as int, y1 as int) == (
        a0 as int,
        b0 as int,
        a1 as int,
        b1 as int,
        ));
        assert(steep == line_steep(x0 as int, y0 as int, x1 as int, y1 as int));
        let n = a1 - a0;
        let mut a = a0;
        assert(paint(data0, w, h, pixels.take(0), *color) =~= data0);
        while a < a1
            invariant
                a0 <= a <= a1,
                n == a1 - a0,
                self.width == w,
                self.height == h,
                self.wf(),
                data0.len() == self.data.len(),
                pixels.len() == n,
                line_frame(x0 as int, y0 as int, x1 as int, y1 as int) == (
                a0 as int,
                b0 as int,
                a1 as int,
                b1 as int,
                ),
                steep == line_steep(x0 as int, y0 as int, x1 as int, y1 as int),
                pixels == line_pixels(x0 as int, y0 as int, x1 as int, y1 as int),
                self.data@ == paint(data0, w, h, pixels.take(a - a0), *color),
            decreases a1 - a,
        {
            let k = a - a0;
            let hi: u64 = if b0 > b1 { b0 as u64 } else { b1 as u64 };
            proof {
                assert((b0 as int) * (n - k) + (b1 as int) * (k as int) <= hi * n) by (nonlinear_arith)
                    requires
                        b0 <= hi,
                        b1 <= hi,
                        k <= n,
                ;
                assert(hi * n <= 0xFFFF_FFFF * 0xFFFF_FFFFint) by (nonlinear_arith)
                    requires
                        hi <= 0xFFFF_FFFF,
                        n <= 0xFFFF_FFFF,
                ;
                assert(0 <= (b0 as int) * (n - k)) by (nonlinear_arith)
                    requires
                        k <= n,
                ;
                assert(0 <= (b1 as int) * (k as int)) by (nonlinear_arith);
                assert(0 <= (b0 as int) * (n - k) + (b1 as int) * (k as int) <= hi * n);
            }
            let num: u64 = (b0 as u64) * ((n - k) as u64) + (b1 as u64) * (k as u64);
            let b64: u64 = num / (n as u64);
            proof {
                assert(b64 <= hi) by (nonlinear_arith)
                    requires
                        b64 == num as int / n as int,
                        num <= hi * n,
                        n > 0,
                ;
                assert(b64 == line_minor(b0 as int, b1 as int, k as int, n as int));
            }
            let b = b64 as u32;
            let (qx, qy) = if steep { (b, a) } else { (a, b) };
            let ghost px: (int, int) = (qx as int, qy as int);
            assert(pixels[k as int] == px);
            let ghost before = self.data@;
            if qx < self.width && qy < self.height {
                proof {
                    lemma_index_in_grid(w, h, qx as int, qy as int);
                }
            }
            self.plot(qx, qy, *color);
            assert(self.data@.len() == data0.len());
            proof {
                let next = pixels.take(k + 1);
                let prev = pixels.take(k as int);
                assert(next =~= prev.push(px));
                assert forall|idx: int| 0 <= idx < data0.len() implies
                    #[trigger] painted(w, h, next, idx) == (painted(w, h, prev, idx) || (on_grid(w, h, px.0, px.1) && px.1 * w + px.0 == idx))
                by {
                    if painted(w, h, prev, idx) {
                        let j = choose|j: int|
                            0 <= j < prev.len() && on_grid(w, h, #[trigger] prev[j].0, prev[j].1) && prev[j].1 * w + prev[j].0 == idx;
                        assert(next[j] == prev[j]);
                    }
                    if on_grid(w, h, px.0, px.1) && px.1 * w + px.0 == idx {
                        assert(next[k as int] == px);
                    }
                    if painted(w, h, next, idx) {
                        let j = choose|j: int|
                            0 <= j < next.len() && on_grid(w, h, #[trigger] next[j].0, next[j].1) && next[j].1 * w + next[j].0 == idx;
                        if j < k {
                            assert(prev[j] == next[j]);
                        }
                    }
                }
                assert forall|idx: int| 0 <= idx < data0.len() implies self.data@[idx] == paint(data0, w, h, next, *color)[idx] by {
                    assert(painted(w, h, next, idx) == (painted(w, h, prev, idx) || (on_grid(w, h, px.0, px.1) && px.1 * w + px.0 == idx)));
                }
                assert(self.data@ =~= paint(data0, w, h, next, *color));
            }
            a = a + 1;
        }
        assert(pixels.take(n as int) =~= pixels);
    }

    /// Fills the triangle `t`, with texture coordinates `uv`, scanline by
    /// scanline: each fragment strictly nearer than the depth stored at its
    /// pixel overwrites that depth and the pixel's colour (the texel at its
    /// coordinates, or `color`). Pixels off the grid are skipped. The corners
    /// are left sorted by row unless all three share one row.
    pub fn triangle(
        &mut self,
        t: &mut Vec<Vec3i>,
        uv: &mut Vec<Vec2i>,
        zbuf: &mut Vec<i32>,
        color: Color,
        texture: &Option<VBuffer>,
    )
        requires
            old(self).wf(),
            old(t).len() == 3,
            old(uv).len() == 3,
            old(zbuf).len() == old(self).data.len(),
        ensures
            final(self).width == old(self).width,
            final(self).height == old(self).height,
            final(t)@ == (if flat(old(t)@) {
                old(t)@
            } else {
                sorted_pts(old(t)@)
            }),
            final(uv)@ == (if flat(old(t)@) {
                old(uv)@
            } else {
                sorted_uvs(old(t)@, old(uv)@)
            }),
            final(zbuf)@ == depth_after(old(zbuf)@, old(self).width as int, old(t)@, old(uv)@),
            final(self).data@ == color_after(
                old(zbuf)@,
                old(self).data@,
                old(self).width as int,
                old(t)@,
                old(uv)@,
                color,
                *texture,
            ),
    {
        let ghost t0 = t@;
        let ghost uv0 = uv@;
        let ghost zb0 = zbuf@;
        let ghost img0 = self.data@;
        let ghost wi = self.width as int;
        let ghost hi = self.height as int;
        if t[0].y == t[1].y && t[0].y == t[2].y {
            proof {
                lemma_flat_plots_nothing(zb0, img0, wi, t0, uv0, color, *texture);
            }
            return;
        }
        sort_corners(t, uv);
        let ghost s = t@;
        let ghost su = uv@;
        let w = self.width;
        let h = self.height;
        let total: i64 = t[2].y as i64 - t[0].y as i64;
        let top: i64 = t[0].y as i64;
        let mut i: i64 = 0;
        while i < total
            invariant
                0 <= i <= total,
                total == rows(s),
                top == s[0].y,
                t@ == s,
                uv@ == su,
                s.len() == 3,
                su.len() == 3,
                s[0].y <= s[1].y <= s[2].y,
                s == sorted_pts(t0),
                su == sorted_uvs(t0, uv0),
                self.width == w,
                self.height == h,
                w == wi,
                h == hi,
                self.wf(),
                zbuf.len() == self.data.len(),
                zb0.len() == img0.len(),
                img0.len() == self.data.len(),
                forall|idx: int|
                    0 <= idx < img0.len() ==> #[trigger] cell_filled(
                        zb0,
                        img0,
                        wi,
                        s,
                        su,
                        color,
                        *texture,
                        i as int,
                        span_start(s, su, i as int, 0),
                        zbuf@,
                        self.data@,
                        idx,
                    ),
            decreases total - i,
        {
            let (l, r) = row_bounds(t, uv, i);
            let y: i64 = top + i;
            let mut x: i64 = l.x as i64;
            assert forall|idx: int| 0 <= idx < img0.len() implies #[trigger] cell_filled(
                zb0, img0, wi, s, su, color, *texture, i as int, x as int, zbuf@, self.data@, idx,
            ) by {
                assert(cell_filled(
                    zb0, img0, wi, s, su, color, *texture, i as int,
                    span_start(s, su, i as int, 0), zbuf@, self.data@, idx,
                ));
                assert(visited(s, su, wi, idx, i as int, x as int) == visited(
                    s, su, wi, idx, i as int, span_start(s, su, i as int, 0)));
            }
            while x < r.x as i64
                invariant
                    0 <= i < total,
                    total == rows(s),
                    top == s[0].y,
                    y == top + i,
                    s.len() == 3,
                    su.len() == 3,
                    s[0].y <= s[1].y <= s[2].y,
                    bounds_of_row(l, r, s, su, i as int),
                    l.x <= x <= r.x,
                    self.width == w,
                    self.height == h,
                    w == wi,
                    h == hi,
                    self.wf(),
                    zbuf.len() == self.data.len(),
                    zb0.len() == img0.len(),
                    img0.len() == self.data.len(),
                    forall|idx: int|
                        0 <= idx < img0.len() ==> #[trigger] cell_filled(
                            zb0,
                            img0,
                            wi,
                            s,
                            su,
                            color,
                            *texture,
                            i as int,
                            x as int,
                            zbuf@,
                            self.data@,
                            idx,
                        ),
                decreases r.x - x,
            {
                let ghost zb_before = zbuf@;
                let ghost img_before = self.data@;
                if 0 <= x && x < w as i64 && 0 <= y && y < h as i64 {
                    proof {
                        lemma_index_in_grid(wi, hi, x as int, y as int);
                        lemma_coords_of(wi, x as int, y as int);
                    }
                    let idx: usize = (y as usize) * (w as usize) + (x as usize);
                    let ghost gi = idx as int;
                    let n: i64 = r.x as i64 - l.x as i64;
                    let k: i64 = x - l.x as i64;
                    proof {
                        assert(y - s[0].y == i);
                    }
                    let z = lerp_i32(l.z, r.z, k, n);
                    assert(z == blend_at(s, su, x as int, y as int, 1));
                    assert(in_span(s, su, x as int, y as int));
                    assert(cell_filled(zb0, img0, wi, s, su, color, *texture, i as int, x as int, zb_before, img_before, gi));
                    assert(!visited(s, su, wi, gi, i as int, x as int));
                    if zbuf[idx] < z {
                        let u = lerp_i32(l.u, r.u, k, n);
                        let v = lerp_i32(l.v, r.v, k, n);
                        let c = shade(texture, u, v, color);
                        zbuf.set(idx, z);
                        self.data.set(idx, c);
                    }
                    proof {
                        assert forall|j: int| 0 <= j < img0.len() implies #[trigger] cell_filled(
                            zb0, img0, wi, s, su, color, *texture, i as int, x + 1, zbuf@, self.data@, j,
                        ) by {
                            assert(cell_filled(
                                zb0, img0, wi, s, su, color, *texture, i as int, x as int,
                                zb_before, img_before, j,
                            ));
                            if j != gi {
                                lemma_grid_coords(wi, hi, j);
                                assert(visited(s, su, wi, j, i as int, x + 1) == visited(
                                    s, su, wi, j, i as int, x as int));
                            } else {
                                assert(visited(s, su, wi, j, i as int, x + 1));
                            }
                        }
                    }
                } else {
                    proof {
                        assert forall|j: int| 0 <= j < img0.len() implies #[trigger] cell_filled(
                            zb0, img0, wi, s, su, color, *texture, i as int, x + 1, zbuf@, self.data@, j,
                        ) by {
                            assert(cell_filled(
                                zb0, img0, wi, s, su, color, *texture, i as int, x as int,
                                zb_before, img_before, j,
                            ));
                            lemma_grid_coords(wi, hi, j);
                            assert(visited(s, su, wi, j, i as int, x + 1) == visited(
                                s, su, wi, j, i as int, x as int));
                        }
                    }
                }
                x = x + 1;
            }
            proof {
                assert forall|idx: int| 0 <= idx < img0.len() implies #[trigger] cell_filled(
                    zb0, img0, wi, s, su, color, *texture, i + 1,
                    span_start(s, su, i + 1, 0), zbuf@, self.data@, idx,
                ) by {
                    assert(cell_filled(
                        zb0, img0, wi, s, su, color, *texture, i as int, x as int, zbuf@,
                        self.data@, idx,
                    ));
                    assert(visited(s, su, wi, idx, i + 1, span_start(s, su, i + 1, 0)) == visited(
                        s, su, wi, idx, i as int, x as int));
                }
            }
            i = i + 1;
        }
        proof {
            assert forall|idx: int| 0 <= idx < img0.len() implies #[trigger] zbuf@[idx] == depth_after(
                zb0, wi, t0, uv0)[idx] by {
                assert(cell_filled(
                    zb0, img0, wi, s, su, color, *texture, i as int,
                    span_start(s, su, i as int, 0), zbuf@, self.data@, idx,
                ));
                assert(visited(s, su, wi, idx, i as int, span_start(s, su, i as int, 0)) == in_span(
                    s, su, idx % wi, idx / wi));
            }
            assert forall|idx: int| 0 <= idx < img0.len() implies #[trigger] self.data@[idx] == color_after(
                zb0, img0, wi, t0, uv0, color, *texture)[idx] by {
                assert(cell_filled(
                    zb0, img0, wi, s, su, color, *texture, i as int,
                    span_start(s, su, i as int, 0), zbuf@, self.data@, idx,
                ));
                assert(visited(s, su, wi, idx, i as int, span_start(s, su, i as int, 0)) == in_span(
                    s, su, idx % wi, idx / wi));
                assert(fragment_color(t0, uv0, idx % wi, idx / wi, color, *texture) == texel(
                    *texture,
                    blend_at(s, su, idx % wi, idx / wi, 2),
                    blend_at(s, su, idx % wi, idx / wi, 3),
                    color,
                ));
            }
            assert(zbuf@ =~= depth_after(zb0, wi, t0, uv0));
            assert(self.data@ =~= color_after(zb0, img0, wi, t0, uv0, color, *texture));
        }
    }
}

} // verus!
