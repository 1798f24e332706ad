use tinyrender::batteries::{opaque_color, random_color, Pixel, Vertex};
use tinyrender::grid_position::GridPosition;
use tinyrender::image::flip_vertically;

const BLANK: Pixel = Pixel { b: 0, g: 0, r: 0, a: 0 };
const INK: Pixel = Pixel { b: 255, g: 100, r: 0, a: 255 };

fn pos(x: u16, y: u16) -> GridPosition {
    GridPosition { x, y, z: 0 }
}

fn drawn(buf: &[Pixel], width: usize) -> Vec<(usize, usize)> {
    let mut out = Vec::new();
    for (i, p) in buf.iter().enumerate() {
        if *p == INK {
            out.push((i % width, i / width));
        }
    }
    out
}

#[test]
fn to_idx_is_row_major() {
    assert_eq!(pos(3, 2).to_idx(10), 23);
    assert_eq!(pos(0, 0).to_idx(10), 0);
    assert_eq!(pos(65535, 65535).to_idx(65535), 65535 * 65535 + 65535);
}

#[test]
fn transpose_xy_swaps_and_is_involution() {
    let p = GridPosition { x: 4, y: 9, z: 7 };
    let t = p.transpose_xy();
    assert_eq!(t, GridPosition { x: 9, y: 4, z: 7 });
    assert_eq!(t.transpose_xy(), p);
}

#[test]
fn opaque_color_places_channels() {
    assert_eq!(opaque_color(1, 2, 3), Pixel { b: 1, g: 2, r: 3, a: 255 });
    assert_eq!(opaque_color(255, 0, 7), Pixel { b: 255, g: 0, r: 7, a: 255 });
}

#[test]
fn random_color_is_opaque() {
    for _ in 0..20 {
        assert_eq!(random_color().a, 255);
    }
}

#[test]
fn vertex_holds_position_and_color() {
    let v = Vertex { position: pos(1, 2), color: INK };
    assert_eq!(v.position.to_idx(4), 9);
    assert_eq!(v.color, INK);
}

#[test]
fn line_shallow_matches_bresenham() {
    let mut buf = vec![BLANK; 6 * 3];
    tinyrender::line::line(pos(0, 0), pos(5, 2), &mut buf, 6, INK);
    assert_eq!(drawn(&buf, 6), vec![(0, 0), (1, 0), (2, 1), (3, 1), (4, 2), (5, 2)]);
}

#[test]
fn line_steep_draws_one_pixel_per_row() {
    let mut buf = vec![BLANK; 3 * 6];
    tinyrender::line::line(pos(0, 0), pos(2, 5), &mut buf, 3, INK);
    assert_eq!(drawn(&buf, 3), vec![(0, 0), (0, 1), (1, 2), (1, 3), (2, 4), (2, 5)]);
}

#[test]
fn line_decreasing_y() {
    let mut buf = vec![BLANK; 5 * 5];
    tinyrender::line::line(pos(0, 4), pos(4, 0), &mut buf, 5, INK);
    assert_eq!(drawn(&buf, 5), vec![(4, 0), (3, 1), (2, 2), (1, 3), (0, 4)]);
}

#[test]
fn line_single_point() {
    let mut buf = vec![BLANK; 9];
    tinyrender::line::line(pos(1, 1), pos(1, 1), &mut buf, 3, INK);
    assert_eq!(drawn(&buf, 3), vec![(1, 1)]);
}

#[test]
fn line_leaves_other_pixels_alone() {
    let other = Pixel { b: 1, g: 2, r: 3, a: 4 };
    let mut buf = vec![other; 4 * 4];
    tinyrender::line::line(pos(0, 0), pos(3, 0), &mut buf, 4, INK);
    for (i, p) in buf.iter().enumerate() {
        if i < 4 {
            assert_eq!(*p, INK);
        } else {
            assert_eq!(*p, other);
        }
    }
}

#[test]
fn line_is_symmetric_in_its_endpoints() {
    let pairs = [((0, 0), (7, 3)), ((2, 9), (5, 0)), ((9, 1), (0, 6)), ((3, 3), (8, 8)), ((0, 9), (9, 4))];
    for ((ax, ay), (bx, by)) in pairs {
        let mut one = vec![BLANK; 100];
        let mut two = vec![BLANK; 100];
        tinyrender::line::line(pos(ax, ay), pos(bx, by), &mut one, 10, INK);
        tinyrender::line::line(pos(bx, by), pos(ax, ay), &mut two, 10, INK);
        assert_eq!(one, two);
        let pts = drawn(&one, 10);
        assert!(pts.contains(&(ax as usize, ay as usize)));
        assert!(pts.contains(&(bx as usize, by as usize)));
        let dx = (ax as i32 - bx as i32).abs();
        let dy = (ay as i32 - by as i32).abs();
        assert_eq!(pts.len() as i32, dx.max(dy) + 1);
    }
}

#[test]
fn triangle_draws_its_three_edges() {
    let mut buf = vec![BLANK; 8 * 8];
    tinyrender::line::triangle(pos(0, 0), pos(6, 0), pos(0, 6), &mut buf, 8, INK);
    let pts = drawn(&buf, 8);
    for k in 0..7 {
        assert!(pts.contains(&(k, 0)));
        assert!(pts.contains(&(0, k)));
        assert!(pts.contains(&(k, 6 - k)));
    }
    assert_eq!(pts.len(), 18);
}

#[test]
fn flip_vertically_reverses_rows() {
    let px = |v: u8| Pixel { b: v, g: 0, r: 0, a: 0 };
    let mut buf: Vec<Pixel> = (0..6).map(px).collect();
    flip_vertically(&mut buf, 2, 3);
    let got: Vec<u8> = buf.iter().map(|p| p.b).collect();
    assert_eq!(got, vec![4, 5, 2, 3, 0, 1]);
    flip_vertically(&mut buf, 2, 3);
    let back: Vec<u8> = buf.iter().map(|p| p.b).collect();
    assert_eq!(back, vec![0, 1, 2, 3, 4, 5]);
}

#[test]
fn flip_vertically_even_height_and_empty() {
    let px = |v: u8| Pixel { b: v, g: 0, r: 0, a: 0 };
    let mut buf: Vec<Pixel> = (0..6).map(px).collect();
    flip_vertically(&mut buf, 3, 2);
    let got: Vec<u8> = buf.iter().map(|p| p.b).collect();
    assert_eq!(got, vec![3, 4, 5, 0, 1, 2]);
    let mut empty: Vec<Pixel> = Vec::new();
    flip_vertically(&mut empty, 0, 5);
    assert!(empty.is_empty());
}

#[test]
fn encode_tga_lays_out_header_and_pixels() {
    let pixels = [Pixel { b: 1, g: 2, r: 3, a: 4 }, Pixel { b: 5, g: 6, r: 7, a: 8 }];
    let bytes = tinyrender::tga::encode_tga(258, 1, &{
        let mut v = vec![BLANK; 258];
        v[0] = pixels[0];
        v[257] = pixels[1];
        v
    });
    assert_eq!(bytes.len(), 36 + 4 * 258);
    assert_eq!(&bytes[0..12], &[17, 0, 2, 0, 0, 0, 0, 0, 0, 0, 0, 0]);
    assert_eq!(&bytes[12..18], &[2, 1, 1, 0, 32, 40]);
    assert_eq!(&bytes[18..35], b"drewcrawford/tgar");
    assert_eq!(&bytes[35..39], &[1, 2, 3, 4]);
    assert_eq!(&bytes[39..43], &[0, 0, 0, 0]);
    let last = 35 + 4 * 257;
    assert_eq!(&bytes[last..last + 4], &[5, 6, 7, 8]);
}

fn line_pixels(a: (u16, u16), b: (u16, u16)) -> Vec<(i64, i64)> {
    let mut buf = vec![BLANK; 16 * 16];
    tinyrender::line::line(pos(a.0, a.1), pos(b.0, b.1), &mut buf, 16, INK);
    drawn(&buf, 16).into_iter().map(|(x, y)| (x as i64, y as i64)).collect()
}

#[test]
fn line_pixels_touch_and_stay_near_the_segment() {
    let cases = [((0, 0), (15, 4)), ((3, 15), (9, 0)), ((15, 15), (0, 14)), ((2, 2), (13, 13)), ((7, 1), (7, 12))];
    for (a, b) in cases {
        let pts = line_pixels(a, b);
        let (ax, ay) = (a.0 as i64, a.1 as i64);
        let (bx, by) = (b.0 as i64, b.1 as i64);
        let major = (ax - bx).abs().max((ay - by).abs());
        assert_eq!(pts.len() as i64, major + 1);
        for &(px, py) in &pts {
            // inside the bounding box
            assert!(ax.min(bx) <= px && px <= ax.max(bx));
            assert!(ay.min(by) <= py && py <= ay.max(by));
            // within half a pixel of the exact segment across its major axis
            let cross = (px - ax) * (by - ay) - (py - ay) * (bx - ax);
            assert!(2 * cross.abs() <= major);
        }
        // every drawn pixel except an endpoint has a drawn neighbour on each side
        let steep = (ax - bx).abs() < (ay - by).abs();
        let mut along: Vec<(i64, i64)> = pts.iter().map(|&(x, y)| if steep { (y, x) } else { (x, y) }).collect();
        along.sort();
        for w in along.windows(2) {
            assert_eq!(w[1].0 - w[0].0, 1);
            assert!((w[1].1 - w[0].1).abs() <= 1);
        }
    }
}

#[test]
fn flip_vertically_keeps_pixels_after_the_image() {
    let px = |v: u8| Pixel { b: v, g: 0, r: 0, a: 0 };
    let mut buf: Vec<Pixel> = (0..7).map(px).collect();
    flip_vertically(&mut buf, 3, 2);
    let got: Vec<u8> = buf.iter().map(|p| p.b).collect();
    assert_eq!(got, vec![3, 4, 5, 0, 1, 2, 6]);
}

#[test]
fn to_idx_distinct_inside_the_row_width() {
    let mut seen = std::collections::HashSet::new();
    for y in 0..5 {
        for x in 0..4 {
            assert!(seen.insert(pos(x, y).to_idx(4)));
        }
    }
    assert_eq!(seen.len(), 20);
}
