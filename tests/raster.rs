use rasterizer::geom::{Vec2i, Vec3i};
use rasterizer::vbuffer::{Color, VBuffer};

const RED: Color = Color(0xFF00_00FF);
const BLUE: Color = Color(0x0000_FFFF);
const BLACK: Color = Color(0x0000_00FF);

fn lit(buf: &VBuffer) -> Vec<(u32, u32)> {
    let mut out = Vec::new();
    for y in 0..buf.height {
        for x in 0..buf.width {
            if buf.data[buf.trans(x, y)] != BLACK {
                out.push((x, y));
            }
        }
    }
    out
}

fn fresh_depth(buf: &VBuffer) -> Vec<i32> {
    vec![i32::MIN; buf.data.len()]
}

fn tri(a: (i32, i32, i32), b: (i32, i32, i32), c: (i32, i32, i32)) -> Vec<Vec3i> {
    vec![Vec3i::new(a.0, a.1, a.2), Vec3i::new(b.0, b.1, b.2), Vec3i::new(c.0, c.1, c.2)]
}

fn no_uv() -> Vec<Vec2i> {
    vec![Vec2i::new(0, 0); 3]
}

#[test]
fn color_packs_channels() {
    let c = Color::new(0x12, 0x34, 0x56, 0x78);
    assert_eq!(c.0, 0x1234_5678);
    assert_eq!(c.get(0), Some(0x78));
    assert_eq!(c.get(1), Some(0x56));
    assert_eq!(c.get(2), Some(0x34));
    assert_eq!(c.get(3), Some(0x12));
    assert_eq!(c.get(4), None);
}

#[test]
fn new_buffer_is_opaque_black() {
    let buf = VBuffer::new(3, 2);
    assert_eq!(buf.width, 3);
    assert_eq!(buf.height, 2);
    assert_eq!(buf.data.len(), 6);
    assert!(buf.data.iter().all(|c| *c == BLACK));
    assert_eq!(buf.trans(2, 1), 5);
}

#[test]
fn plot_sets_pixel_and_drops_outside() {
    let mut buf = VBuffer::new(4, 3);
    buf.plot(1, 2, RED);
    assert_eq!(buf.data[9], RED);
    buf.plot(4, 0, RED);
    buf.plot(0, 3, RED);
    assert_eq!(lit(&buf), vec![(1, 2)]);
}

#[test]
fn line_horizontal_excludes_far_end() {
    let mut buf = VBuffer::new(8, 8);
    buf.line(1, 2, 5, 2, &RED);
    assert_eq!(lit(&buf), vec![(1, 2), (2, 2), (3, 2), (4, 2)]);
}

#[test]
fn line_steep_steps_along_y() {
    let mut buf = VBuffer::new(8, 8);
    buf.line(2, 0, 3, 4, &RED);
    // minor coordinate 2 + k/4, truncated
    assert_eq!(lit(&buf), vec![(2, 0), (2, 1), (2, 2), (2, 3)]);
}

#[test]
fn line_diagonal_exact_pixels() {
    let mut buf = VBuffer::new(8, 8);
    buf.line(0, 0, 6, 3, &RED);
    // y = 3k/6 truncated
    assert_eq!(lit(&buf), vec![(0, 0), (1, 0), (2, 1), (3, 1), (4, 2), (5, 2)]);
}

#[test]
fn line_symmetric_in_its_ends() {
    let ends = [(0u32, 0u32, 7u32, 3u32), (6, 1, 1, 7), (3, 3, 3, 0), (5, 5, 0, 0), (2, 6, 7, 6)];
    for &(x0, y0, x1, y1) in ends.iter() {
        let mut a = VBuffer::new(8, 8);
        let mut b = VBuffer::new(8, 8);
        a.line(x0, y0, x1, y1, &RED);
        b.line(x1, y1, x0, y0, &RED);
        assert_eq!(a, b);
    }
}

#[test]
fn line_has_no_gaps() {
    let mut buf = VBuffer::new(16, 16);
    buf.line(1, 14, 6, 2, &RED);
    let mut rows: Vec<u32> = lit(&buf).iter().map(|p| p.1).collect();
    rows.sort();
    rows.dedup();
    // steep: one pixel on each row from 2 up to 13
    assert_eq!(rows, (2..14).collect::<Vec<u32>>());
    assert_eq!(lit(&buf).len(), 12);
}

#[test]
fn line_clipped_at_edges() {
    let mut buf = VBuffer::new(4, 4);
    buf.line(2, 1, 9, 1, &RED);
    assert_eq!(lit(&buf), vec![(2, 1), (3, 1)]);
}

#[test]
fn line_single_point_plots_nothing() {
    let mut buf = VBuffer::new(4, 4);
    buf.line(2, 2, 2, 2, &RED);
    assert!(lit(&buf).is_empty());
}

#[test]
fn triangle_right_angle_plots_ten() {
    let mut buf = VBuffer::new(8, 8);
    let mut zbuf = fresh_depth(&buf);
    let mut t = tri((0, 0, 0), (4, 0, 0), (0, 4, 0));
    let mut uv = no_uv();
    buf.triangle(&mut t, &mut uv, &mut zbuf, RED, &None);
    let px = lit(&buf);
    assert_eq!(px.len(), 10);
    let mut expected = Vec::new();
    for y in 0..4u32 {
        for x in 0..(4 - y) {
            expected.push((x, y));
        }
    }
    assert_eq!(px, expected);
    for (x, y) in px {
        assert_eq!(buf.data[buf.trans(x, y)], RED);
        assert_eq!(zbuf[buf.trans(x, y)], 0);
    }
}

#[test]
fn triangle_flat_plots_nothing() {
    let mut buf = VBuffer::new(8, 8);
    let mut zbuf = fresh_depth(&buf);
    let mut t = tri((5, 3, 1), (0, 3, 1), (7, 3, 1));
    let mut uv = no_uv();
    buf.triangle(&mut t, &mut uv, &mut zbuf, RED, &None);
    assert!(lit(&buf).is_empty());
    assert!(zbuf.iter().all(|z| *z == i32::MIN));
    // corners stay as given
    assert_eq!(t, tri((5, 3, 1), (0, 3, 1), (7, 3, 1)));
}

#[test]
fn triangle_sorts_corners_stably() {
    let mut buf = VBuffer::new(8, 8);
    let mut zbuf = fresh_depth(&buf);
    let mut t = tri((1, 1, 0), (6, 1, 0), (3, 0, 0));
    let mut uv = vec![Vec2i::new(10, 0), Vec2i::new(20, 0), Vec2i::new(30, 0)];
    buf.triangle(&mut t, &mut uv, &mut zbuf, RED, &None);
    assert_eq!(t, tri((3, 0, 0), (1, 1, 0), (6, 1, 0)));
    assert_eq!(uv, vec![Vec2i::new(30, 0), Vec2i::new(10, 0), Vec2i::new(20, 0)]);
}

#[test]
fn triangle_stays_in_bounding_box() {
    let mut buf = VBuffer::new(16, 16);
    let mut zbuf = fresh_depth(&buf);
    let mut t = tri((2, 3, 0), (12, 6, 0), (5, 13, 0));
    let mut uv = no_uv();
    buf.triangle(&mut t, &mut uv, &mut zbuf, RED, &None);
    let px = lit(&buf);
    assert!(!px.is_empty());
    assert!(px.len() <= 11 * 11);
    for (x, y) in px {
        assert!(2 <= x && x < 12);
        assert!(3 <= y && y < 13);
    }
}

#[test]
fn triangle_depth_order_does_not_matter() {
    let near = tri((0, 0, 10), (6, 0, 10), (0, 6, 10));
    let far = tri((1, 1, 5), (7, 1, 5), (1, 7, 5));

    let mut a = VBuffer::new(8, 8);
    let mut za = fresh_depth(&a);
    a.triangle(&mut far.clone(), &mut no_uv(), &mut za, RED, &None);
    a.triangle(&mut near.clone(), &mut no_uv(), &mut za, BLUE, &None);

    let mut b = VBuffer::new(8, 8);
    let mut zb = fresh_depth(&b);
    b.triangle(&mut near.clone(), &mut no_uv(), &mut zb, BLUE, &None);
    b.triangle(&mut far.clone(), &mut no_uv(), &mut zb, RED, &None);

    assert_eq!(a, b);
    assert_eq!(za, zb);
    // (1, 1) is covered by both: the nearer one wins
    assert_eq!(a.data[a.trans(1, 1)], BLUE);
    assert_eq!(za[a.trans(1, 1)], 10);
    // (5, 2) is covered by the far one only
    assert_eq!(a.data[a.trans(5, 2)], RED);
}

#[test]
fn triangle_equal_depth_later_wins() {
    let mut buf = VBuffer::new(8, 8);
    let mut zbuf = fresh_depth(&buf);
    let t = tri((0, 0, 3), (4, 0, 3), (0, 4, 3));
    buf.triangle(&mut t.clone(), &mut no_uv(), &mut zbuf, RED, &None);
    buf.triangle(&mut t.clone(), &mut no_uv(), &mut zbuf, BLUE, &None);
    // the second is not strictly nearer, so the first stays
    assert_eq!(buf.data[0], RED);
}

#[test]
fn triangle_interpolates_depth() {
    let mut buf = VBuffer::new(8, 8);
    let mut zbuf = fresh_depth(&buf);
    let mut t = tri((0, 0, 0), (4, 0, 40), (0, 4, 0));
    buf.triangle(&mut t, &mut no_uv(), &mut zbuf, RED, &None);
    // row 0 spans x in [0, 4): depth 40 * x / 4
    assert_eq!(&zbuf[0..4], &[0, 10, 20, 30]);
    // row 1: ends at depth 0 and 30, span [0, 3)
    assert_eq!(&zbuf[8..11], &[0, 10, 20]);
}

#[test]
fn triangle_samples_texture() {
    let mut tex = VBuffer::new(4, 4);
    for y in 0..4u32 {
        for x in 0..4u32 {
            tex.plot(x, y, Color(0x0100_0000 * (y * 4 + x) + 0xFF));
        }
    }
    let mut buf = VBuffer::new(8, 8);
    let mut zbuf = fresh_depth(&buf);
    let mut t = tri((0, 0, 0), (4, 0, 0), (0, 4, 0));
    let mut uv = vec![Vec2i::new(0, 0), Vec2i::new(3, 0), Vec2i::new(0, 3)];
    buf.triangle(&mut t, &mut uv, &mut zbuf, RED, &Some(tex.clone()));
    // row 0: u runs from 0 to 3 over columns 0..4, u = 3x/4 truncated
    let row0: Vec<Color> = buf.data[0..4].to_vec();
    assert_eq!(row0, vec![tex.data[0], tex.data[0], tex.data[1], tex.data[2]]);
}

#[test]
fn triangle_texel_outside_texture_uses_flat_color() {
    let tex = VBuffer::new(2, 2);
    let mut buf = VBuffer::new(8, 8);
    let mut zbuf = fresh_depth(&buf);
    let mut t = tri((0, 0, 0), (4, 0, 0), (0, 4, 0));
    let mut uv = vec![Vec2i::new(9, 9); 3];
    buf.triangle(&mut t, &mut uv, &mut zbuf, RED, &Some(tex));
    assert_eq!(buf.data[0], RED);
}

#[test]
fn triangle_off_grid_parts_are_skipped() {
    let mut buf = VBuffer::new(4, 4);
    let mut zbuf = fresh_depth(&buf);
    let mut t = tri((-4, -2, 0), (10, -2, 0), (-4, 12, 0));
    buf.triangle(&mut t, &mut no_uv(), &mut zbuf, RED, &None);
    // the whole grid lies inside
    assert_eq!(lit(&buf).len(), 16);
}
