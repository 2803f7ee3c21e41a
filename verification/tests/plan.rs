use poisson_disk::config::Config;
use poisson_disk::density::DensityMode;
use poisson_disk::renderer::{RenderMode, SnapPlan};

fn config(frames: usize, gif_duration: u32, gif_pause: u32) -> Config {
    Config {
        width: 100,
        height: 50,
        method: 2,
        k: 30,
        seed: 42,
        density_mode: DensityMode::Luma,
        render_mode: RenderMode::Stippling,
        frames,
        gif_duration,
        gif_pause,
    }
}

#[test]
fn plan_even_spacing() {
    let plan = SnapPlan::build(100, 3, 4);
    assert_eq!(plan.counts, vec![0, 25, 50, 75, 100]);
    assert_eq!(plan.n_frames(), 5);
    assert_eq!(plan.pause_frames, 4);
}

#[test]
fn plan_rounds_halves_up() {
    // 10 * 1/4 = 2.5 -> 3, 10 * 3/4 = 7.5 -> 8
    let plan = SnapPlan::build(10, 3, 0);
    assert_eq!(plan.counts, vec![0, 3, 5, 8, 10]);
}

#[test]
fn plan_removes_duplicates() {
    // every middle count is clamped into [1, 1]
    let plan = SnapPlan::build(2, 5, 1);
    assert_eq!(plan.counts, vec![0, 1, 2]);
    assert_eq!(plan.n_frames(), 3);
}

#[test]
fn plan_without_middle_frames() {
    assert_eq!(SnapPlan::build(5, 0, 0).counts, vec![0, 5]);
    assert_eq!(SnapPlan::build(1, 0, 0).counts, vec![0, 1]);
    assert_eq!(SnapPlan::build(0, 0, 0).counts, vec![0]);
}

#[test]
fn plan_laws_on_many_inputs() {
    for total in 2..40usize {
        for n in 0..12usize {
            let plan = SnapPlan::build(total, n, 0);
            let c = &plan.counts;
            assert_eq!(c[0], 0);
            assert_eq!(*c.last().unwrap(), total);
            assert!(c.len() <= n + 2);
            for w in c.windows(2) {
                assert!(w[0] < w[1]);
            }
        }
    }
}

#[test]
fn plan_end_pause() {
    let plan = SnapPlan::build(100, 3, 10);
    assert_eq!(plan.end_pause_ms(200), Some(2000));
    assert_eq!(plan.end_pause_ms(u32::MAX), Some(u32::MAX));
    let no_pause = SnapPlan::build(100, 3, 0);
    assert_eq!(no_pause.end_pause_ms(200), None);
}

#[test]
fn gif_delay_spreads_duration() {
    let c = config(30, 6000, 2000);
    assert_eq!(c.gif_delay_ms(), 200);
    assert_eq!(c.pause_frames(), 10);
}

#[test]
fn gif_delay_has_floor() {
    let c = config(1000, 6000, 5);
    assert_eq!(c.gif_delay_ms(), 10);
    assert_eq!(c.pause_frames(), 1);
}

#[test]
fn gif_delay_zero_frames_counts_as_one() {
    let c = config(0, 6000, 12000);
    assert_eq!(c.gif_delay_ms(), 6000);
    assert_eq!(c.pause_frames(), 2);
}
