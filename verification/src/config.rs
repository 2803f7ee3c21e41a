//! Runtime configuration: the integer settings and the GIF timing derived
//! from them.

use vstd::prelude::*;
use crate::density::DensityMode;
use crate::renderer::RenderMode;

verus! {

/// Reference long-edge size (pixels) for automatic `r_min` normalization (1080p).
pub const REF_LONG_EDGE: u32 = 1920;

/// Maximum free retries for off-image Bridson candidates (not charged to k).
pub const MAX_OOB_RETRIES: usize = 8;

/// Lower bound of the per-frame GIF delay, in milliseconds.
pub const MIN_GIF_DELAY_MS: u32 = 10;

/// Settings of one run that hold whole numbers: image size, sampler choice,
/// modes and GIF timing.
#[derive(Debug, Clone, Copy)]
pub struct Config {
    pub width: u32,
    pub height: u32,
    /// 1 = dart throwing, anything else = Bridson.
    pub method: u8,
    pub k: usize,
    pub seed: u64,
    pub density_mode: DensityMode,
    pub render_mode: RenderMode,
    pub frames: usize,
    pub gif_duration: u32,
    pub gif_pause: u32,
}

/// The frame count used as divisor: at least one, then narrowed to `u32`.
pub open spec fn frame_divisor(frames: usize) -> u32 {
    (if frames == 0 { 1 } else { frames }) as u32
}

/// Per-frame delay: total duration spread over the frames, at least 10 ms.
pub open spec fn gif_delay_spec(gif_duration: u32, frames: usize) -> u32 {
    let d = gif_duration / frame_divisor(frames);
    if d < MIN_GIF_DELAY_MS { MIN_GIF_DELAY_MS } else { d }
}

/// End-pause as a number of frames of the per-frame delay, at least one.
pub open spec fn pause_frames_spec(gif_pause: u32, gif_duration: u32, frames: usize) -> usize {
    let p = gif_pause / gif_delay_spec(gif_duration, frames);
    (if p < 1 { 1 } else { p }) as usize
}

/// The per-frame delay spreads the whole configured duration over the
/// frames (at least one, narrowed to `u32`): above the 10 ms floor it is the
/// largest delay whose total over all frames fits in the duration, and it
/// drops to the floor only when even 11 ms per frame would not fit.
pub proof fn lemma_gif_delay_spreads_duration(gif_duration: u32, frames: usize)
    requires
        ((if frames == 0 { 1 } else { frames }) as u32) != 0,
    ensures
        ({
            let f = ((if frames == 0 { 1 } else { frames }) as u32) as int;
            let d = gif_delay_spec(gif_duration, frames) as int;
            &&& d >= 10
            &&& d > 10 ==> d * f <= gif_duration < (d + 1) * f
            &&& d == 10 ==> gif_duration < 11 * f
        }),
{
    let f = ((if frames == 0 { 1 } else { frames }) as u32) as int;
    let dur = gif_duration as int;
    let q = dur / f;
    vstd::arithmetic::div_mod::lemma_fundamental_div_mod(dur, f);
    assert(0 <= dur % f < f);
    assert(q * f <= dur < (q + 1) * f) by (nonlinear_arith)
        requires dur == f * q + dur % f, 0 <= dur % f < f;
    let d = gif_delay_spec(gif_duration, frames) as int;
    if q < 10 {
        assert(d == 10);
        assert((q + 1) * f <= 11 * f) by (nonlinear_arith)
            requires q < 10, f > 0;
    } else {
        assert(d == q);
    }
}

/// The end pause, counted in frames of the per-frame delay, is the largest
/// number of whole delays that fits in the configured pause (at least one).
pub proof fn lemma_pause_frames_fill_pause(gif_pause: u32, gif_duration: u32, frames: usize)
    requires
        ((if frames == 0 { 1 } else { frames }) as u32) != 0,
    ensures
        ({
            let d = gif_delay_spec(gif_duration, frames) as int;
            let p = pause_frames_spec(gif_pause, gif_duration, frames) as int;
            &&& p >= 1
            &&& p > 1 ==> p * d <= gif_pause < (p + 1) * d
            &&& p == 1 ==> gif_pause < 2 * d
        }),
{
    lemma_gif_delay_spreads_duration(gif_duration, frames);
    let d = gif_delay_spec(gif_duration, frames) as int;
    let pz = gif_pause as int;
    let q = pz / d;
    vstd::arithmetic::div_mod::lemma_fundamental_div_mod(pz, d);
    assert(0 <= pz % d < d);
    assert(q * d <= pz < (q + 1) * d) by (nonlinear_arith)
        requires pz == d * q + pz % d, 0 <= pz % d < d;
    assert(q >= 0) by (nonlinear_arith)
        requires q * d <= pz, (q + 1) * d > pz, pz >= 0, d > 0;
    assert(q <= u32::MAX) by (nonlinear_arith)
        requires q * d <= pz, pz <= u32::MAX, d >= 1, q >= 0;
    let p = pause_frames_spec(gif_pause, gif_duration, frames) as int;
    if q < 1 {
        assert(p == 1);
        assert(q == 0);
        assert(pz < d) by (nonlinear_arith)
            requires q == 0, pz < (q + 1) * d;
        assert(pz < 2 * d);
    } else {
        assert(p == q);
        assert(p * d <= pz < (p + 1) * d);
        if q == 1 {
            assert((q + 1) * d == 2 * d) by (nonlinear_arith)
                requires q == 1;
        }
    }
}

impl Config {
    /// Whether the GIF timing can be derived: the frame count, narrowed to
    /// `u32`, must not vanish.
    pub open spec fn timing_ok(&self) -> bool {
        frame_divisor(self.frames) != 0
    }

    /// Per-frame delay derived from total GIF duration and frame count.
    /// Clamped to 10 ms minimum (resolution limit).
    pub fn gif_delay_ms(&self) -> (d: u32)
        requires
            self.timing_ok(),
        ensures
            d == gif_delay_spec(self.gif_duration, self.frames),
            d >= MIN_GIF_DELAY_MS,
            ({
                let f = frame_divisor(self.frames) as int;
                &&& d > MIN_GIF_DELAY_MS ==> d * f <= self.gif_duration < (d + 1) * f
                &&& d == MIN_GIF_DELAY_MS ==> self.gif_duration < (MIN_GIF_DELAY_MS + 1) * f
            }),
    {
        proof {
            lemma_gif_delay_spreads_duration(self.gif_duration, self.frames);
        }
        let frames: usize = if self.frames == 0 { 1 } else { self.frames };
        let divisor: u32 = frames as u32;
        let d: u32 = self.gif_duration / divisor;
        if d < MIN_GIF_DELAY_MS { MIN_GIF_DELAY_MS } else { d }
    }

    /// GIF end-pause expressed as a frame-count for encoder (repeated frames).
    pub fn pause_frames(&self) -> (p: usize)
        requires
            self.timing_ok(),
        ensures
            p == pause_frames_spec(self.gif_pause, self.gif_duration, self.frames),
            p >= 1,
            ({
                let d = gif_delay_spec(self.gif_duration, self.frames) as int;
                &&& p > 1 ==> p * d <= self.gif_pause < (p + 1) * d
                &&& p == 1 ==> self.gif_pause < 2 * d
            }),
    {
        proof {
            lemma_pause_frames_fill_pause(self.gif_pause, self.gif_duration, self.frames);
        }
        let delay = self.gif_delay_ms();
        let p: u32 = self.gif_pause / delay;
        (if p < 1 { 1 } else { p }) as usize
    }
}

} // verus!
