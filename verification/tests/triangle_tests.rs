use std::cell::Cell;

use soft_raster::color::Color;
use soft_raster::depth::Depth;
use soft_raster::framebuffer::Framebuffer;
use soft_raster::framebuffer::Pixel;
use soft_raster::point::Point;
use soft_raster::triangle::draw_filled_triangle;
use soft_raster::triangle::Sample;

const NIGHT: Color = Color { r: 5, g: 5, b: 15, a: 255 };
const EDGE_TOLERANCE: f32 = -0.0001;

type Vertex = [f32; 3];

fn untouched() -> Pixel {
    Pixel { color: NIGHT, depth: Depth::from_bits(f32::INFINITY.to_bits()) }
}

fn project(v: Vertex, width: f32, height: f32) -> (f32, f32) {
    let fov = 1.0 / (v[2] + 3.0);
    (width / 2.0 + v[0] * fov * width / 2.0, height / 2.0 - v[1] * fov * height / 2.0)
}

fn weights(p: &[(f32, f32); 3], x: i32, y: i32) -> Option<(f32, f32, f32)> {
    let denom = (p[1].1 - p[2].1) * (p[0].0 - p[2].0) + (p[2].0 - p[1].0) * (p[0].1 - p[2].1);
    let px = x as f32 + 0.5;
    let py = y as f32 + 0.5;
    let w0 = ((p[1].1 - p[2].1) * (px - p[2].0) + (p[2].0 - p[1].0) * (py - p[2].1)) / denom;
    let w1 = ((p[2].1 - p[0].1) * (px - p[2].0) + (p[0].0 - p[2].0) * (py - p[2].1)) / denom;
    let w2 = 1.0 - w0 - w1;
    if w0 >= EDGE_TOLERANCE && w1 >= EDGE_TOLERANCE && w2 >= EDGE_TOLERANCE {
        Some((w0, w1, w2))
    } else {
        None
    }
}

fn surface(v: &[Vertex; 3], w: (f32, f32, f32)) -> Vertex {
    [
        w.0 * v[0][0] + w.1 * v[1][0] + w.2 * v[2][0],
        w.0 * v[0][1] + w.1 * v[1][1] + w.2 * v[2][1],
        w.0 * v[0][2] + w.1 * v[1][2] + w.2 * v[2][2],
    ]
}

fn warm(at: Vertex) -> Color {
    Color::new(200, (at[0] * 40.0 + 100.0) as u8, (at[1] * 40.0 + 100.0) as u8, 255)
}

fn cold(at: Vertex) -> Color {
    Color::new(20, (at[0] * 10.0 + 60.0) as u8, 220, 255)
}

fn corner(p: (f32, f32)) -> Point {
    Point::new(p.0 as i32, p.1 as i32)
}

fn fill(fb: &mut Framebuffer, v: [Vertex; 3], shader: fn(Vertex) -> Color) -> bool {
    let width = fb.width() as f32;
    let height = fb.height() as f32;
    let p = [project(v[0], width, height), project(v[1], width, height), project(v[2], width, height)];
    let cross = (p[1].0 - p[0].0) * (p[2].1 - p[0].1) - (p[1].1 - p[0].1) * (p[2].0 - p[0].0);
    if cross <= 0.0 {
        return false;
    }
    let denom = (p[1].1 - p[2].1) * (p[0].0 - p[2].0) + (p[2].0 - p[1].0) * (p[0].1 - p[2].1);
    if denom.abs() < 1e-6 {
        return false;
    }
    draw_filled_triangle(
        fb,
        corner(p[0]),
        corner(p[1]),
        corner(p[2]),
        |x: i32, y: i32| {
            weights(&p, x, y).map(|w| {
                let at = surface(&v, w);
                Sample { depth: Depth::from_bits(at[2].to_bits()), surface: at }
            })
        },
        shader,
    );
    true
}

fn state(fb: &Framebuffer) -> Vec<Pixel> {
    let mut all = Vec::new();
    for y in 0..fb.height() as i32 {
        for x in 0..fb.width() as i32 {
            all.push(fb.pixel(x, y).unwrap());
        }
    }
    all
}

const NEAR: [Vertex; 3] = [[-1.0, -1.0, 1.0], [0.0, 1.0, 1.0], [1.0, -1.0, 1.0]];
const FAR: [Vertex; 3] = [[-2.0, -2.0, 5.0], [0.0, 2.0, 5.0], [2.0, -2.0, 5.0]];

#[test]
fn a_single_triangle_marks_its_footprint() {
    let mut fb = Framebuffer::new(100, 100, NIGHT);
    fb.clear();
    assert!(fill(&mut fb, NEAR, warm));
    let p = [
        project(NEAR[0], 100.0, 100.0),
        project(NEAR[1], 100.0, 100.0),
        project(NEAR[2], 100.0, 100.0),
    ];
    assert_eq!(p, [(37.5, 62.5), (50.0, 37.5), (62.5, 62.5)]);
    let mut covered = 0;
    for y in 0..100 {
        for x in 0..100 {
            let pixel = fb.pixel(x, y).unwrap();
            let inside_box = 37 <= x && x <= 62 && 37 <= y && y <= 62;
            match weights(&p, x, y) {
                Some(w) if inside_box => {
                    let at = surface(&NEAR, w);
                    covered += 1;
                    assert!(f32::from_bits(pixel.depth.to_bits()) < f32::INFINITY);
                    assert_eq!(pixel.depth.to_bits(), at[2].to_bits());
                    assert_eq!(pixel.color, warm(at), "at ({}, {})", x, y);
                }
                _ => assert_eq!(pixel, untouched(), "at ({}, {})", x, y),
            }
        }
    }
    assert!(covered > 250 && covered < 400, "{} pixels", covered);
    assert_ne!(fb.pixel(50, 50), Some(untouched()));
    assert_eq!(fb.pixel(38, 40), Some(untouched()));
}

#[test]
fn the_nearer_of_two_overlapping_triangles_shows_in_either_order() {
    let p = [
        project(NEAR[0], 100.0, 100.0),
        project(NEAR[1], 100.0, 100.0),
        project(NEAR[2], 100.0, 100.0),
    ];
    let q = [
        project(FAR[0], 100.0, 100.0),
        project(FAR[1], 100.0, 100.0),
        project(FAR[2], 100.0, 100.0),
    ];
    assert_eq!(p, q);

    let mut near_first = Framebuffer::new(100, 100, NIGHT);
    assert!(fill(&mut near_first, NEAR, warm));
    assert!(fill(&mut near_first, FAR, cold));
    let mut far_first = Framebuffer::new(100, 100, NIGHT);
    assert!(fill(&mut far_first, FAR, cold));
    let between = state(&far_first);
    assert!(fill(&mut far_first, NEAR, warm));

    let mut overlapped = 0;
    for y in 0..100 {
        for x in 0..100 {
            if let Some(w) = weights(&p, x, y) {
                if 37 <= x && x <= 62 && 37 <= y && y <= 62 {
                    overlapped += 1;
                    let at = surface(&NEAR, w);
                    let expected = Pixel { color: warm(at), depth: Depth::from_bits(at[2].to_bits()) };
                    assert_eq!(near_first.pixel(x, y), Some(expected));
                    assert_eq!(far_first.pixel(x, y), Some(expected));
                    let behind = between[(y * 100 + x) as usize];
                    assert_eq!(behind.color.r, 20);
                    assert!(f32::from_bits(behind.depth.to_bits()) > 4.9);
                }
            }
        }
    }
    assert!(overlapped > 250);
    assert_eq!(state(&near_first), state(&far_first));
}

#[test]
fn a_triangle_off_screen_changes_nothing() {
    let mut fb = Framebuffer::new(100, 100, NIGHT);
    assert!(fill(&mut fb, NEAR, warm));
    let before = state(&fb);
    let moved = |dx: f32, dy: f32| -> [Vertex; 3] {
        [
            [NEAR[0][0] + dx, NEAR[0][1] + dy, 1.0],
            [NEAR[1][0] + dx, NEAR[1][1] + dy, 1.0],
            [NEAR[2][0] + dx, NEAR[2][1] + dy, 1.0],
        ]
    };
    for (dx, dy) in [(10.0, 0.0), (-10.0, 0.0), (0.0, 10.0), (0.0, -10.0), (20.0, -30.0)] {
        assert!(fill(&mut fb, moved(dx, dy), cold));
        assert_eq!(state(&fb), before, "moved by ({}, {})", dx, dy);
    }
}

#[test]
fn a_triangle_across_a_corner_of_the_screen_changes_nothing() {
    let mut fb = Framebuffer::new(100, 100, NIGHT);
    let before = state(&fb);
    let calls = Cell::new(0);
    let sampled = Cell::new(0);
    draw_filled_triangle(
        &mut fb,
        Point::new(-40, 20),
        Point::new(20, -40),
        Point::new(-40, -40),
        |_x: i32, _y: i32| -> Option<Sample<()>> {
            sampled.set(sampled.get() + 1);
            None
        },
        |_: ()| {
            calls.set(calls.get() + 1);
            NIGHT
        },
    );
    assert_eq!(sampled.get(), 21 * 21);
    assert_eq!(calls.get(), 0);
    assert_eq!(state(&fb), before);
}

#[test]
fn a_triangle_is_clipped_to_the_buffer() {
    let mut fb = Framebuffer::new(20, 20, NIGHT);
    let visited = Cell::new(0);
    draw_filled_triangle(
        &mut fb,
        Point::new(-1000, 5),
        Point::new(7, i32::MIN),
        Point::new(i32::MAX, 12),
        |x: i32, y: i32| {
            assert!(0 <= x && x < 20 && 0 <= y && y <= 12);
            visited.set(visited.get() + 1);
            Some(Sample { depth: Depth::from_bits(2.0f32.to_bits()), surface: x + y })
        },
        |sum: i32| Color::new(sum as u8, 0, 0, 255),
    );
    assert_eq!(visited.get(), 20 * 13);
    for y in 0..20 {
        for x in 0..20 {
            let expected = if y <= 12 {
                Pixel { color: Color::new((x + y) as u8, 0, 0, 255), depth: Depth::from_bits(2.0f32.to_bits()) }
            } else {
                untouched()
            };
            assert_eq!(fb.pixel(x, y), Some(expected));
        }
    }
}

#[test]
fn pixels_are_visited_row_by_row_inside_the_bounding_box() {
    let mut fb = Framebuffer::new(20, 20, NIGHT);
    let order = std::cell::RefCell::new(Vec::new());
    draw_filled_triangle(
        &mut fb,
        Point::new(4, 9),
        Point::new(2, 7),
        Point::new(3, 8),
        |x: i32, y: i32| -> Option<Sample<()>> {
            order.borrow_mut().push((x, y));
            None
        },
        |_: ()| NIGHT,
    );
    assert_eq!(
        order.into_inner(),
        vec![(2, 7), (3, 7), (4, 7), (2, 8), (3, 8), (4, 8), (2, 9), (3, 9), (4, 9)]
    );
}

#[test]
fn only_samples_that_win_the_depth_test_are_shaded() {
    let mut fb = Framebuffer::new(8, 8, NIGHT);
    fb.set_fragment(3, 3, Pixel { color: NIGHT, depth: Depth::from_bits(1.0f32.to_bits()) });
    fb.set_fragment(4, 3, Pixel { color: NIGHT, depth: Depth::from_bits(2.0f32.to_bits()) });
    let shaded = std::cell::RefCell::new(Vec::new());
    draw_filled_triangle(
        &mut fb,
        Point::new(2, 2),
        Point::new(5, 2),
        Point::new(5, 4),
        |x: i32, y: i32| {
            if y == 3 {
                Some(Sample { depth: Depth::from_bits(2.0f32.to_bits()), surface: (x, y) })
            } else {
                None
            }
        },
        |at: (i32, i32)| {
            shaded.borrow_mut().push(at);
            Color::new(at.0 as u8, at.1 as u8, 7, 255)
        },
    );
    assert_eq!(shaded.into_inner(), vec![(2, 3), (5, 3)]);
    assert_eq!(fb.pixel(2, 3).unwrap().color, Color::new(2, 3, 7, 255));
    assert_eq!(fb.pixel(3, 3).unwrap(), Pixel { color: NIGHT, depth: Depth::from_bits(1.0f32.to_bits()) });
    assert_eq!(fb.pixel(4, 3).unwrap(), Pixel { color: NIGHT, depth: Depth::from_bits(2.0f32.to_bits()) });
    assert_eq!(fb.pixel(5, 3).unwrap().color, Color::new(5, 3, 7, 255));
    assert_eq!(fb.pixel(3, 2).unwrap(), untouched());
}

#[test]
fn a_sample_whose_depth_is_no_number_is_dropped() {
    let mut fb = Framebuffer::new(6, 6, NIGHT);
    let before = state(&fb);
    draw_filled_triangle(
        &mut fb,
        Point::new(0, 0),
        Point::new(5, 0),
        Point::new(0, 5),
        |_x: i32, _y: i32| Some(Sample { depth: Depth::from_bits(f32::NAN.to_bits()), surface: () }),
        |_: ()| Color::new(1, 1, 1, 1),
    );
    assert_eq!(state(&fb), before);
}

#[test]
fn a_triangle_keeps_the_draw_color_and_the_background() {
    let mut fb = Framebuffer::new(100, 100, NIGHT);
    fb.set_current_color(Color::new(9, 8, 7, 6));
    fb.set_background_color(Color::new(1, 2, 3, 4));
    assert!(fill(&mut fb, NEAR, warm));
    fb.set_pixel(0, 0);
    assert_eq!(fb.pixel(0, 0).unwrap().color, Color::new(9, 8, 7, 6));
    fb.clear();
    assert!(fb.snapshot().iter().all(|c| *c == Color::new(1, 2, 3, 4)));
}

#[test]
fn a_triangle_in_an_empty_buffer_visits_nothing() {
    let mut fb = Framebuffer::new(0, 0, NIGHT);
    let visited = Cell::new(0);
    draw_filled_triangle(
        &mut fb,
        Point::new(-5, -5),
        Point::new(5, -5),
        Point::new(0, 5),
        |_x: i32, _y: i32| -> Option<Sample<()>> {
            visited.set(visited.get() + 1);
            None
        },
        |_: ()| NIGHT,
    );
    assert_eq!(visited.get(), 0);
}

#[test]
fn the_visited_box_is_the_clamped_box_of_the_projected_corners() {
    let width = 16.0f32;
    let height = 12.0f32;
    let choices = [
        -1.0e20f32, -40.0, -3.75, -1.0, -0.5, -0.0, 0.0, 0.25, 0.999, 1.0, 3.5, 7.0, 10.999, 11.0,
        11.5, 12.0, 14.999, 15.0, 15.5, 16.0, 99.0, 3.0e9, f32::INFINITY, f32::NEG_INFINITY,
    ];
    let mut seed: u32 = 12345;
    let mut pick = move || {
        seed = seed.wrapping_mul(1664525).wrapping_add(1013904223);
        choices[((seed >> 16) as usize) % choices.len()]
    };
    for _ in 0..400 {
        let xs = [pick(), pick(), pick()];
        let ys = [pick(), pick(), pick()];
        let min_x = xs[0].min(xs[1]).min(xs[2]).max(0.0) as i32;
        let max_x = xs[0].max(xs[1]).max(xs[2]).min(width - 1.0) as i32;
        let min_y = ys[0].min(ys[1]).min(ys[2]).max(0.0) as i32;
        let max_y = ys[0].max(ys[1]).max(ys[2]).min(height - 1.0) as i32;
        let mut expected = Vec::new();
        for y in min_y..=max_y {
            for x in min_x..=max_x {
                expected.push((x, y));
            }
        }
        let mut fb = Framebuffer::new(16, 12, NIGHT);
        let visited = std::cell::RefCell::new(Vec::new());
        draw_filled_triangle(
            &mut fb,
            Point::new(xs[0] as i32, ys[0] as i32),
            Point::new(xs[1] as i32, ys[1] as i32),
            Point::new(xs[2] as i32, ys[2] as i32),
            |x: i32, y: i32| -> Option<Sample<()>> {
                visited.borrow_mut().push((x, y));
                None
            },
            |_: ()| NIGHT,
        );
        assert_eq!(visited.into_inner(), expected, "corners {:?} {:?}", xs, ys);
    }
}
