use poisson_disk::renderer::{
    filled_canvas, first_jump_step, jump_flood, paint_cells, render_stipple, render_voronoi, seed_map, Rgb8,
    NO_SEED,
};

const WHITE: Rgb8 = Rgb8 { r: 255, g: 255, b: 255 };
const BLACK: Rgb8 = Rgb8 { r: 0, g: 0, b: 0 };

#[test]
fn stipple_marks_dots_on_image() {
    let c = render_stipple(3, 2, &vec![(0, 0), (2, 1), (5, 5), (3, 0)]);
    assert_eq!(c.width, 3);
    assert_eq!(c.height, 2);
    assert_eq!(c.pixels, vec![BLACK, WHITE, WHITE, WHITE, WHITE, BLACK]);
}

#[test]
fn stipple_without_dots_is_white() {
    let c = render_stipple(2, 2, &vec![]);
    assert_eq!(c.pixels, vec![WHITE; 4]);
}

#[test]
fn seed_map_last_point_wins() {
    let m = seed_map(3, 2, &vec![(0, 0), (9, 9), (0, 0)]);
    assert_eq!(m, vec![2, NO_SEED, NO_SEED, NO_SEED, NO_SEED, 1]);
}

fn nearest(points: &[(f32, f32)]) -> impl Fn(usize, usize, u32, u32) -> bool + '_ {
    move |x: usize, y: usize, s: u32, b: u32| {
        let d = |i: u32| {
            if i == u32::MAX {
                return f32::MAX;
            }
            let (px, py) = points[i as usize];
            (px - x as f32).powi(2) + (py - y as f32).powi(2)
        };
        d(s) < d(b)
    }
}

#[test]
fn flood_fills_every_pixel() {
    let points = vec![(0.5f32, 1.5f32), (6.5, 1.5)];
    let init = seed_map(8, 4, &vec![(0, 1), (6, 1)]);
    let closer = nearest(&points);
    let m = jump_flood(8, 4, init, 4, &closer);
    assert_eq!(m.len(), 32);
    for y in 0..4usize {
        for x in 0..8usize {
            let want = if x <= 3 { 0 } else { 1 };
            assert_eq!(m[y * 8 + x], want, "pixel ({x}, {y})");
        }
    }
}

#[test]
fn paint_averages_cells() {
    let seeds = vec![0, 0, 1, NO_SEED];
    let source = vec![
        Rgb8 { r: 10, g: 20, b: 30 },
        Rgb8 { r: 21, g: 40, b: 0 },
        Rgb8 { r: 7, g: 8, b: 9 },
        Rgb8 { r: 1, g: 1, b: 1 },
    ];
    let out = paint_cells(&seeds, &source, 2);
    assert_eq!(
        out,
        vec![
            Rgb8 { r: 15, g: 30, b: 15 },
            Rgb8 { r: 15, g: 30, b: 15 },
            Rgb8 { r: 7, g: 8, b: 9 },
            WHITE,
        ]
    );
}

#[test]
fn voronoi_two_cells() {
    let mut source = filled_canvas(4, 1, WHITE);
    source.pixels = vec![
        Rgb8 { r: 0, g: 0, b: 0 },
        Rgb8 { r: 100, g: 0, b: 0 },
        Rgb8 { r: 0, g: 200, b: 0 },
        Rgb8 { r: 0, g: 100, b: 50 },
    ];
    let points = vec![(0.2f32, 0.5f32), (3.7, 0.5)];
    let closer = nearest(&points);
    let c = render_voronoi(4, 1, &source, &vec![(0, 0), (3, 0)], &closer);
    assert_eq!(
        c.pixels,
        vec![
            Rgb8 { r: 50, g: 0, b: 0 },
            Rgb8 { r: 50, g: 0, b: 0 },
            Rgb8 { r: 0, g: 150, b: 25 },
            Rgb8 { r: 0, g: 150, b: 25 },
        ]
    );
}

#[test]
fn voronoi_without_points_is_white() {
    let source = filled_canvas(2, 2, BLACK);
    let closer = |_: usize, _: usize, _: u32, _: u32| false;
    let c = render_voronoi(2, 2, &source, &vec![], &closer);
    assert_eq!(c.pixels, vec![WHITE; 4]);
}

#[test]
fn voronoi_nearest_point_cells() {
    let mut source = filled_canvas(4, 1, WHITE);
    source.pixels = vec![
        Rgb8 { r: 0, g: 0, b: 0 },
        Rgb8 { r: 20, g: 0, b: 0 },
        Rgb8 { r: 100, g: 0, b: 0 },
        Rgb8 { r: 200, g: 0, b: 0 },
    ];
    let points = vec![(0.0f32, 0.0f32), (3.0, 0.0)];
    let closer = nearest(&points);
    let c = render_voronoi(4, 1, &source, &vec![(0, 0), (3, 0)], &closer);
    assert_eq!(
        c.pixels,
        vec![
            Rgb8 { r: 10, g: 0, b: 0 },
            Rgb8 { r: 10, g: 0, b: 0 },
            Rgb8 { r: 150, g: 0, b: 0 },
            Rgb8 { r: 150, g: 0, b: 0 },
        ]
    );
}

#[test]
fn voronoi_covers_wide_image() {
    let w = 37u32;
    let h = 5u32;
    let source = filled_canvas(w, h, BLACK);
    let points = vec![(1.5f32, 2.5f32), (30.5, 0.5)];
    let closer = nearest(&points);
    let c = render_voronoi(w, h, &source, &vec![(1, 2), (30, 0)], &closer);
    assert!(c.pixels.iter().all(|p| *p == BLACK));
}

#[test]
fn first_jump_step_values() {
    assert_eq!(first_jump_step(0), 0);
    assert_eq!(first_jump_step(1), 0);
    assert_eq!(first_jump_step(2), 1);
    assert_eq!(first_jump_step(3), 2);
    assert_eq!(first_jump_step(4), 2);
    assert_eq!(first_jump_step(5), 4);
    assert_eq!(first_jump_step(1920), 1024);
    assert_eq!(first_jump_step(u32::MAX), 1 << 31);
}

#[test]
fn stipple_ignores_dot_order() {
    let a = render_stipple(4, 3, &vec![(0, 0), (3, 2), (1, 1), (9, 9)]);
    let b = render_stipple(4, 3, &vec![(9, 9), (1, 1), (0, 0), (3, 2)]);
    assert_eq!(a.pixels, b.pixels);
}
