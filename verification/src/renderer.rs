//! Frame planning and pixel-level rendering.

use vstd::prelude::*;
use vstd::arithmetic::div_mod::{lemma_fundamental_div_mod_converse, lemma_div_is_ordered};
use vstd::arithmetic::mul::lemma_mul_inequality;

verus! {

/// How frames are drawn.
#[derive(Clone, Copy, Debug, PartialEq, Eq, Structural)]
pub enum RenderMode {
    /// One black pixel per point on a white canvas.
    Stippling,
    /// Each pixel takes the average colour of its nearest point's cell.
    Voronoi,
}

// -----------------------------------------------------------------------------
// Snapshot plan
// -----------------------------------------------------------------------------

/// `a / b` rounded to the nearest integer, halves rounded up.
pub open spec fn round_div(a: int, b: int) -> int {
    (2 * a + b) / (2 * b)
}

/// `v` brought into `[lo, hi]`.
pub open spec fn clamp_int(v: int, lo: int, hi: int) -> int {
    if v < lo {
        lo
    } else if v > hi {
        hi
    } else {
        v
    }
}

/// Number of points shown by middle frame `i` (1-based) of `n_middle`:
/// `total * i / (n_middle + 1)` rounded, kept inside `[1, total - 1]`.
pub open spec fn middle_count(total: nat, n_middle: nat, i: nat) -> int {
    clamp_int(
        round_div((total * i) as int, (n_middle + 1) as int),
        1,
        if total >= 1 { total - 1 } else { 0 },
    )
}

/// The frame counts before duplicates are removed: an empty first frame,
/// the evenly spaced middle frames, then the full set.
pub open spec fn raw_counts(total: usize, n_middle: usize) -> Seq<usize> {
    seq![0usize] + Seq::new(
        n_middle as nat,
        |k: int| middle_count(total as nat, n_middle as nat, (k + 1) as nat) as usize,
    ) + seq![total]
}

/// `s` with every run of equal adjacent elements collapsed to one element.
pub open spec fn dedup<A>(s: Seq<A>) -> Seq<A>
    decreases s.len(),
{
    if s.len() <= 1 {
        s
    } else {
        let d = dedup(s.drop_last());
        if s[s.len() - 2] == s.last() {
            d
        } else {
            d.push(s.last())
        }
    }
}

/// Inputs on which a plan can be built: with at least one middle frame there
/// must be room for a count strictly between 0 and `total`.
pub open spec fn plan_inputs_ok(total: usize, n_middle: usize) -> bool {
    &&& n_middle + 2 <= usize::MAX
    &&& (n_middle == 0 || total >= 2)
}

/// The frame counts of a plan for `total` points and `n_middle` middle frames.
pub open spec fn plan_counts(total: usize, n_middle: usize) -> Seq<usize> {
    dedup(raw_counts(total, n_middle))
}

/// Indices into the final `points` slice that define which frames to render.
pub struct SnapPlan {
    /// `counts[i]` = number of points to include in frame `i`.
    pub counts: Vec<usize>,
    /// How many trailing frames repeat the last snapshot (end-pause).
    pub pause_frames: usize,
}

proof fn lemma_dedup_shape<A>(s: Seq<A>)
    ensures
        dedup(s).len() <= s.len(),
        s.len() >= 1 ==> dedup(s).len() >= 1 && dedup(s)[0] == s[0] && dedup(s).last()
            == s.last(),
        forall|k: int| 0 <= k < dedup(s).len() ==> s.contains(#[trigger] dedup(s)[k]),
    decreases s.len(),
{
    if s.len() > 1 {
        let t = s.drop_last();
        lemma_dedup_shape(t);
        let d = dedup(t);
        assert forall|k: int| 0 <= k < dedup(s).len() implies s.contains(#[trigger] dedup(s)[k]) by {
            if k < d.len() {
                assert(t.contains(d[k]));
                let j = choose|j: int| 0 <= j < t.len() && t[j] == d[k];
                assert(s[j] == d[k]);
            } else {
                assert(dedup(s)[k] == s[s.len() - 1]);
            }
        }
    }
}

proof fn lemma_dedup_push<A>(s: Seq<A>, x: A)
    ensures
        dedup(s.push(x)) == if s.len() >= 1 && s.last() == x {
            dedup(s)
        } else {
            dedup(s).push(x)
        },
{
    assert(s.push(x).drop_last() =~= s);
}

/// Removing adjacent duplicates from a non-decreasing sequence leaves a
/// strictly increasing one.
proof fn lemma_dedup_sorted(s: Seq<usize>)
    requires
        forall|i: int, j: int| 0 <= i <= j < s.len() ==> s[i] <= s[j],
    ensures
        forall|i: int, j: int| 0 <= i < j < dedup(s).len() ==> dedup(s)[i] < dedup(s)[j],
    decreases s.len(),
{
    if s.len() > 1 {
        let t = s.drop_last();
        lemma_dedup_sorted(t);
        lemma_dedup_shape(t);
        let d = dedup(t);
        if s[s.len() - 2] != s.last() {
            assert forall|k: int| 0 <= k < d.len() implies d[k] < s.last() by {
                assert(t.contains(d[k]));
                let j = choose|j: int| 0 <= j < t.len() && t[j] == d[k];
                assert(s[j] <= s[s.len() - 2]);
            }
        }
    }
}

proof fn lemma_round_div_bounds(t: int, i: int, b: int)
    requires
        t >= 0,
        0 <= i < b,
    ensures
        0 <= round_div(t * i, b) <= t,
{
    assert(0 <= t * i) by (nonlinear_arith)
        requires t >= 0, i >= 0;
    assert(2 * (t * i) + b < (2 * b) * (t + 1)) by (nonlinear_arith)
        requires t >= 0, 0 <= i < b;
    let q = round_div(t * i, b);
    assert(q >= 0) by (nonlinear_arith)
        requires q == (2 * (t * i) + b) / (2 * b), t * i >= 0, b > 0;
    assert(q <= t) by (nonlinear_arith)
        requires q == (2 * (t * i) + b) / (2 * b), 2 * (t * i) + b < (2 * b) * (t + 1), b > 0;
}

proof fn lemma_round_div_monotone(t: int, i: int, j: int, b: int)
    requires
        t >= 0,
        0 <= i <= j,
        b > 0,
    ensures
        round_div(t * i, b) <= round_div(t * j, b),
{
    lemma_mul_inequality(i, j, t);
    assert(i * t == t * i && j * t == t * j) by (nonlinear_arith);
    lemma_div_is_ordered(2 * (t * i) + b, 2 * (t * j) + b, 2 * b);
}

/// The raw counts never decrease and stay within `[0, total]`.
proof fn lemma_raw_counts_sorted(total: usize, n_middle: usize)
    requires
        plan_inputs_ok(total, n_middle),
    ensures
        forall|i: int, j: int|
            0 <= i <= j < raw_counts(total, n_middle).len() ==> raw_counts(total, n_middle)[i]
                <= raw_counts(total, n_middle)[j],
        forall|i: int|
            0 <= i < raw_counts(total, n_middle).len() ==> raw_counts(total, n_middle)[i]
                <= total,
{
    let r = raw_counts(total, n_middle);
    let n = n_middle as int;
    assert forall|k: int| 0 <= k < n implies 1 <= middle_count(
        total as nat,
        n_middle as nat,
        (k + 1) as nat,
    ) <= total - 1 && #[trigger] r[k + 1] == middle_count(total as nat, n_middle as nat, (k + 1) as nat) by {
        lemma_round_div_bounds(total as int, k + 1, n + 1);
    }
    assert forall|i: int, j: int| 0 <= i <= j < r.len() implies r[i] <= r[j] by {
        if i == 0 {
        } else if j == r.len() - 1 {
            assert(r[i] <= total);
        } else {
            lemma_round_div_monotone(total as int, i, j, n + 1);
            assert(r[i] == middle_count(total as nat, n_middle as nat, i as nat));
            assert(r[j] == middle_count(total as nat, n_middle as nat, j as nat));
        }
    }
}

/// Laws of a frame plan: it starts with the empty frame, ends with the full
/// set of points, its counts strictly increase (so every frame differs from
/// the one before), and it has at most `n_middle + 2` frames.
pub proof fn lemma_plan_counts_laws(total: usize, n_middle: usize)
    requires
        plan_inputs_ok(total, n_middle),
    ensures
        plan_counts(total, n_middle).len() >= 1,
        plan_counts(total, n_middle).len() <= n_middle + 2,
        plan_counts(total, n_middle)[0] == 0,
        plan_counts(total, n_middle).last() == total,
        forall|i: int, j: int|
            0 <= i < j < plan_counts(total, n_middle).len() ==> plan_counts(total, n_middle)[i]
                < plan_counts(total, n_middle)[j],
        total >= 1 ==> plan_counts(total, n_middle).len() >= 2,
        forall|i: int|
            0 < i < plan_counts(total, n_middle).len() - 1 ==> 1 <= #[trigger] plan_counts(
                total,
                n_middle,
            )[i] <= total - 1,
{
    let r = raw_counts(total, n_middle);
    lemma_raw_counts_sorted(total, n_middle);
    lemma_dedup_shape(r);
    lemma_dedup_sorted(r);
    let d = dedup(r);
    if total >= 1 && d.len() < 2 {
        assert(d[0] == d[d.len() - 1]);
    }
    assert forall|i: int| 0 < i < d.len() - 1 implies 1 <= #[trigger] d[i] <= total - 1 by {
        assert(d[0] < d[i]);
        assert(d[i] < d[d.len() - 1]);
    }
}

/// Whether `c` is a fair count for middle frame `i` of `n_middle` over
/// `total` points: it lies in `[1, total - 1]` and is within half a point of
/// the ideal `total * i / (n_middle + 1)`, except where it was pulled up to 1
/// or down to `total - 1`.
pub open spec fn evenly_spaced(c: int, total: int, n_middle: int, i: int) -> bool {
    &&& 1 <= c <= total - 1
    &&& c > 1 ==> 2 * c * (n_middle + 1) - 2 * total * i <= n_middle + 1
    &&& c < total - 1 ==> 2 * total * i - 2 * c * (n_middle + 1) <= n_middle + 1
}

/// Whether some frame strictly between the first and the last has a fair
/// count for middle frame `i`.
pub open spec fn has_fair_frame(counts: Seq<usize>, total: int, n_middle: int, i: int) -> bool {
    exists|j: int|
        0 < j < counts.len() - 1 && #[trigger] evenly_spaced(counts[j] as int, total, n_middle, i)
}

/// Whether `c` is a fair count for some middle frame.
pub open spec fn fair_for_some_frame(c: int, total: int, n_middle: int) -> bool {
    exists|i: int| 1 <= i <= n_middle && #[trigger] evenly_spaced(c, total, n_middle, i)
}

/// The count of middle frame `i` is the nearest whole number to its share
/// `total * i / (n_middle + 1)` of all points, kept inside `[1, total - 1]`.
pub proof fn lemma_middle_count_spacing(total: nat, n_middle: nat, i: nat)
    requires
        1 <= i <= n_middle,
        total >= 2,
    ensures
        evenly_spaced(middle_count(total, n_middle, i), total as int, n_middle as int, i as int),
{
    let t = total as int;
    let b = (n_middle + 1) as int;
    let a = t * (i as int);
    let r = round_div(a, b);
    vstd::arithmetic::div_mod::lemma_fundamental_div_mod(2 * a + b, 2 * b);
    let m = (2 * a + b) % (2 * b);
    assert(0 <= m < 2 * b);
    assert(r * (2 * b) <= 2 * a + b < (r + 1) * (2 * b)) by (nonlinear_arith)
        requires 2 * a + b == (2 * b) * r + m, 0 <= m < 2 * b;
    assert(2 * r * b - 2 * t * i <= b) by (nonlinear_arith)
        requires r * (2 * b) <= 2 * a + b, a == t * i;
    assert(2 * t * i - 2 * r * b < b) by (nonlinear_arith)
        requires 2 * a + b < (r + 1) * (2 * b), a == t * i;
    let c = middle_count(total, n_middle, i);
    if r < 1 {
        assert(c == 1);
        assert(2 * t * i - 2 * c * b < b) by (nonlinear_arith)
            requires 2 * t * i - 2 * r * b < b, r < c, b > 0;
    } else if r > t - 1 {
        assert(c == t - 1);
        assert(2 * c * b - 2 * t * i < b) by (nonlinear_arith)
            requires 2 * r * b - 2 * t * i <= b, c < r, b > 0;
    } else {
        assert(c == r);
    }
}

proof fn lemma_dedup_keeps<A>(s: Seq<A>, x: A)
    requires
        s.contains(x),
    ensures
        dedup(s).contains(x),
    decreases s.len(),
{
    lemma_dedup_shape(s);
    if s.len() > 1 {
        let t = s.drop_last();
        if x == s.last() {
            assert(dedup(s)[dedup(s).len() - 1] == x);
        } else {
            let j = choose|j: int| 0 <= j < s.len() && s[j] == x;
            assert(t[j] == x);
            lemma_dedup_keeps(t, x);
            let d = dedup(t);
            let k = choose|k: int| 0 <= k < d.len() && d[k] == x;
            assert(dedup(s)[k] == x);
        }
    }
}

/// Every middle frame of a plan is evenly spaced: each middle frame `i`
/// appears in the plan with a fair count for `i`, and each count strictly
/// between the first and last frame is a fair count for some middle frame.
pub proof fn lemma_plan_counts_spacing(total: usize, n_middle: usize)
    requires
        plan_inputs_ok(total, n_middle),
    ensures
        forall|i: int|
            1 <= i <= n_middle ==> #[trigger] has_fair_frame(
                plan_counts(total, n_middle),
                total as int,
                n_middle as int,
                i,
            ),
        forall|j: int|
            0 < j < plan_counts(total, n_middle).len() - 1 ==> fair_for_some_frame(
                #[trigger] plan_counts(total, n_middle)[j] as int,
                total as int,
                n_middle as int,
            ),
{
    let r = raw_counts(total, n_middle);
    let d = plan_counts(total, n_middle);
    lemma_plan_counts_laws(total, n_middle);
    lemma_dedup_shape(r);
    assert forall|i: int| 1 <= i <= n_middle implies #[trigger] has_fair_frame(
        d,
        total as int,
        n_middle as int,
        i,
    ) by {
        lemma_middle_count_spacing(total as nat, n_middle as nat, i as nat);
        let c = r[i];
        assert(c == middle_count(total as nat, n_middle as nat, i as nat));
        assert(r.contains(c));
        lemma_dedup_keeps(r, c);
        let j = choose|j: int| 0 <= j < d.len() && d[j] == c;
        if j == 0 {
            assert(d[0] == 0);
        }
        if j == d.len() - 1 {
            assert(d[j] == total);
        }
        assert(evenly_spaced(d[j] as int, total as int, n_middle as int, i));
    }
    assert forall|j: int| 0 < j < d.len() - 1 implies fair_for_some_frame(
        #[trigger] d[j] as int,
        total as int,
        n_middle as int,
    ) by {
        assert(r.contains(d[j]));
        let k = choose|k: int| 0 <= k < r.len() && r[k] == d[j];
        assert(d[0] < d[j] < d[d.len() - 1]);
        assert(k != 0);
        assert(k != r.len() - 1);
        lemma_middle_count_spacing(total as nat, n_middle as nat, k as nat);
        assert(r[k] == middle_count(total as nat, n_middle as nat, k as nat));
        assert(evenly_spaced(d[j] as int, total as int, n_middle as int, k));
    }
}

/// Rounded `total * i / (n_middle + 1)` clamped to `[1, total - 1]`.
fn middle_frame_count(total: usize, n_middle: usize, i: usize) -> (c: usize)
    requires
        1 <= i <= n_middle,
        total >= 2,
    ensures
        c == middle_count(total as nat, n_middle as nat, i as nat),
{
    assert((total as u128) * (i as u128) <= 0xffff_ffff_ffff_ffffu128 * 0xffff_ffff_ffff_ffffu128)
        by (nonlinear_arith)
        requires total <= 0xffff_ffff_ffff_ffffu64, i <= 0xffff_ffff_ffff_ffffu64;
    let prod: u128 = (total as u128) * (i as u128);
    let b: u128 = (n_middle as u128) + 1;
    let q: u128 = prod / b;
    assert(q <= prod) by (nonlinear_arith)
        requires q == prod / b, b >= 1;
    let r: u128 = prod % b;
    let rounded: u128 = if 2 * r >= b {
        q + 1
    } else {
        q
    };
    proof {
        let a = prod as int;
        let bb = b as int;
        assert(a == q * bb + r) by (nonlinear_arith)
            requires q == a / bb, r == a % bb, bb > 0;
        let m: int = if 2 * r >= b { 2 * r - b } else { 2 * r + b };
        assert(0 <= m < 2 * bb);
        assert(2 * a + bb == rounded * (2 * bb) + m) by (nonlinear_arith)
            requires a == q * bb + r, m == (if 2 * r >= bb { 2 * r - bb } else { 2 * r + bb }),
                rounded == (if 2 * r >= bb { q + 1 } else { q as int });
        lemma_fundamental_div_mod_converse(2 * a + bb, 2 * bb, rounded as int, m);
        lemma_round_div_bounds(total as int, i as int, bb);
    }
    let rounded: usize = rounded as usize;
    if rounded < 1 {
        1
    } else if rounded > total - 1 {
        total - 1
    } else {
        rounded
    }
}

impl SnapPlan {
    /// Build snapshot plan given total number of points, middle frames
    /// and pause frames.
    pub fn build(total: usize, n_middle: usize, pause_frames: usize) -> (plan: SnapPlan)
        requires
            plan_inputs_ok(total, n_middle),
        ensures
            plan.counts@ == plan_counts(total, n_middle),
            plan.pause_frames == pause_frames,
            forall|i: int|
                1 <= i <= n_middle ==> #[trigger] has_fair_frame(
                    plan.counts@,
                    total as int,
                    n_middle as int,
                    i,
                ),
            forall|j: int|
                0 < j < plan.counts@.len() - 1 ==> fair_for_some_frame(
                    #[trigger] plan.counts@[j] as int,
                    total as int,
                    n_middle as int,
                ),
    {
        proof {
            lemma_plan_counts_spacing(total, n_middle);
        }
        let ghost raw = raw_counts(total, n_middle);
        let mut counts: Vec<usize> = Vec::with_capacity(n_middle + 2);
        counts.push(0);
        proof {
            assert(raw.take(1) =~= seq![0usize]);
        }
        let mut i: usize = 1;
        while i <= n_middle
            invariant
                plan_inputs_ok(total, n_middle),
                raw == raw_counts(total, n_middle),
                1 <= i <= n_middle + 1,
                counts@ == dedup(raw.take(i as int)),
                counts@.len() >= 1,
                counts@.last() == raw[i - 1],
            decreases n_middle + 1 - i,
        {
            let c = middle_frame_count(total, n_middle, i);
            proof {
                assert(raw.take(i + 1) =~= raw.take(i as int).push(c));
                lemma_dedup_push(raw.take(i as int), c);
                assert(raw.take(i as int).last() == raw[i - 1]);
            }
            if counts[counts.len() - 1] != c {
                counts.push(c);
            }
            i += 1;
        }
        proof {
            assert(raw.take(n_middle + 2) =~= raw.take(n_middle + 1).push(total));
            assert(raw.take(n_middle + 2) =~= raw);
            lemma_dedup_push(raw.take(n_middle + 1), total);
            assert(raw.take(n_middle + 1).last() == raw[n_middle as int]);
        }
        if counts[counts.len() - 1] != total {
            counts.push(total);
        }
        proof {
            assert(counts@ == plan_counts(total, n_middle));
        }
        SnapPlan { counts, pause_frames }
    }

    /// Total number of distinct frames that will be encoded (before pause).
    pub fn n_frames(&self) -> (n: usize)
        ensures
            n == self.counts@.len(),
    {
        self.counts.len()
    }
}


// -----------------------------------------------------------------------------
// GIF timing
// -----------------------------------------------------------------------------

/// Delay of the end-pause frame: the per-frame delay times the pause frame
/// count (narrowed to `u32`), saturating at `u32::MAX`.
pub open spec fn end_pause_spec(delay_ms: u32, pause_frames: usize) -> u32 {
    let p = (pause_frames as u32) as int;
    if delay_ms * p > u32::MAX {
        u32::MAX
    } else {
        (delay_ms * p) as u32
    }
}

impl SnapPlan {
    /// The delay of the extra frame that repeats the last snapshot at the end
    /// of the animation, if there is one: there is when the plan has a frame
    /// and asks for a pause.
    pub fn end_pause_ms(&self, delay_ms: u32) -> (d: Option<u32>)
        ensures
            d == (if self.counts@.len() > 0 && self.pause_frames > 0 {
                Some(end_pause_spec(delay_ms, self.pause_frames))
            } else {
                None
            }),
    {
        if self.counts.len() > 0 && self.pause_frames > 0 {
            let p: u32 = self.pause_frames as u32;
            assert((delay_ms as u64) * (p as u64) <= 0xffff_ffffu64 * 0xffff_ffffu64) by (nonlinear_arith)
                requires delay_ms <= 0xffff_ffffu32, p <= 0xffff_ffffu32;
            let prod: u64 = (delay_ms as u64) * (p as u64);
            if prod > 0xffff_ffffu64 {
                Some(0xffff_ffffu32)
            } else {
                Some(prod as u32)
            }
        } else {
            None
        }
    }
}

// -----------------------------------------------------------------------------
// Canvas
// -----------------------------------------------------------------------------

/// An 8-bit RGB colour.
#[derive(Clone, Copy, Debug, PartialEq, Eq, Structural)]
pub struct Rgb8 {
    pub r: u8,
    pub g: u8,
    pub b: u8,
}

/// White, the colour of an empty canvas.
pub open spec fn white() -> Rgb8 {
    Rgb8 { r: 255, g: 255, b: 255 }
}

/// Black, the colour of a stipple dot.
pub open spec fn black() -> Rgb8 {
    Rgb8 { r: 0, g: 0, b: 0 }
}

/// A `width` x `height` RGB image, pixels stored row-major.
pub struct Canvas {
    pub width: u32,
    pub height: u32,
    pub pixels: Vec<Rgb8>,
}

impl Canvas {
    /// One pixel per position of the image.
    pub open spec fn wf(&self) -> bool {
        self.pixels@.len() == self.width * self.height
    }
}

/// Images whose byte buffer (three bytes per pixel) fits in memory.
pub open spec fn image_fits(width: u32, height: u32) -> bool {
    width * height * 3 <= usize::MAX
}

/// A canvas filled with one colour.
pub fn filled_canvas(width: u32, height: u32, colour: Rgb8) -> (c: Canvas)
    requires
        image_fits(width, height),
    ensures
        c.wf(),
        c.width == width,
        c.height == height,
        forall|k: int| 0 <= k < c.pixels@.len() ==> c.pixels@[k] == colour,
{
    assert(width * height <= width * height * 3) by (nonlinear_arith);
    let n: usize = (width as usize) * (height as usize);
    let pixels: Vec<Rgb8> = vec![colour; n];
    Canvas { width, height, pixels }
}

// -----------------------------------------------------------------------------
// Stippling
// -----------------------------------------------------------------------------

/// Whether pixel `(x, y)` lies on a `width` x `height` image.
pub open spec fn on_image(p: (u32, u32), width: u32, height: u32) -> bool {
    p.0 < width && p.1 < height
}

/// Whether some dot of `dots` lands on flat pixel `k`.
pub open spec fn dot_at(dots: Seq<(u32, u32)>, width: u32, height: u32, k: int) -> bool {
    exists|i: int|
        0 <= i < dots.len() && on_image(#[trigger] dots[i], width, height) && dots[i].1 * width
            + dots[i].0 == k
}

/// Stippling does not depend on the order of the dots: dots that are a
/// rearrangement of one another mark the same pixels.
pub proof fn lemma_stipple_order_free(
    d1: Seq<(u32, u32)>,
    d2: Seq<(u32, u32)>,
    width: u32,
    height: u32,
)
    requires
        d1.to_multiset() == d2.to_multiset(),
    ensures
        forall|k: int| #[trigger] dot_at(d1, width, height, k) == dot_at(d2, width, height, k),
{
    broadcast use vstd::seq_lib::group_to_multiset_ensures;
    assert forall|k: int| #[trigger] dot_at(d1, width, height, k) == dot_at(d2, width, height, k) by {
        if dot_at(d1, width, height, k) {
            let i = choose|i: int|
                0 <= i < d1.len() && on_image(#[trigger] d1[i], width, height) && d1[i].1 * width
                    + d1[i].0 == k;
            assert(d1.contains(d1[i]));
            assert(d1.to_multiset().count(d1[i]) > 0);
            assert(d2.to_multiset().count(d1[i]) > 0);
            assert(d2.contains(d1[i]));
            let j = choose|j: int| 0 <= j < d2.len() && d2[j] == d1[i];
            assert(on_image(d2[j], width, height));
        }
        if dot_at(d2, width, height, k) {
            let i = choose|i: int|
                0 <= i < d2.len() && on_image(#[trigger] d2[i], width, height) && d2[i].1 * width
                    + d2[i].0 == k;
            assert(d2.contains(d2[i]));
            assert(d2.to_multiset().count(d2[i]) > 0);
            assert(d1.to_multiset().count(d2[i]) > 0);
            assert(d1.contains(d2[i]));
            let j = choose|j: int| 0 <= j < d1.len() && d1[j] == d2[i];
            assert(on_image(d1[j], width, height));
        }
    }
}

/// Render a stippling frame: white canvas, one black pixel per dot that lies
/// on the image. Dots are the points' pixel coordinates.
pub fn render_stipple(width: u32, height: u32, dots: &Vec<(u32, u32)>) -> (c: Canvas)
    requires
        image_fits(width, height),
    ensures
        c.wf(),
        c.width == width,
        c.height == height,
        forall|k: int|
            0 <= k < c.pixels@.len() ==> #[trigger] c.pixels@[k] == (if dot_at(
                dots@,
                width,
                height,
                k,
            ) {
                black()
            } else {
                white()
            }),
{
    let mut c = filled_canvas(width, height, Rgb8 { r: 255, g: 255, b: 255 });
    let mut i: usize = 0;
    while i < dots.len()
        invariant
            image_fits(width, height),
            c.wf(),
            c.width == width,
            c.height == height,
            i <= dots.len(),
            forall|k: int|
                0 <= k < c.pixels@.len() ==> #[trigger] c.pixels@[k] == (if dot_at(
                    dots@.take(i as int),
                    width,
                    height,
                    k,
                ) {
                    black()
                } else {
                    white()
                }),
        decreases dots.len() - i,
    {
        let (x, y) = dots[i];
        let ghost prev = c.pixels@;
        let ghost pre = dots@.take(i as int);
        let ghost post = dots@.take(i + 1);
        if x < width && y < height {
            proof {
                assert(y * width + x < width * height) by (nonlinear_arith)
                    requires x < width, y < height;
                assert(width * height <= width * height * 3) by (nonlinear_arith);
            }
            let k: usize = (y as usize) * (width as usize) + (x as usize);
            c.pixels.set(k, Rgb8 { r: 0, g: 0, b: 0 });
        }
        proof {
            assert forall|k: int| 0 <= k < c.pixels@.len() implies #[trigger] c.pixels@[k] == (if dot_at(
                post,
                width,
                height,
                k,
            ) {
                black()
            } else {
                white()
            }) by {
                assert(post[i as int] == dots@[i as int]);
                if dot_at(pre, width, height, k) {
                    let j = choose|j: int|
                        0 <= j < pre.len() && on_image(#[trigger] pre[j], width, height) && pre[j].1
                            * width + pre[j].0 == k;
                    assert(post[j] == pre[j]);
                }
                if dot_at(post, width, height, k) && !dot_at(pre, width, height, k) {
                    let j = choose|j: int|
                        0 <= j < post.len() && on_image(#[trigger] post[j], width, height) && post[j].1
                            * width + post[j].0 == k;
                    if j < i {
                        assert(pre[j] == post[j]);
                    }
                }
            }
        }
        i += 1;
    }
    proof {
        assert(dots@.take(dots.len() as int) =~= dots@);
    }
    c
}


// -----------------------------------------------------------------------------
// Voronoi mosaic
// -----------------------------------------------------------------------------

/// Marker of a pixel that no seed has claimed yet.
pub const NO_SEED: u32 = 0xffff_ffffu32;

/// Flat index of the pixel holding cell coordinates `p`, each clamped to the image.
pub open spec fn clamped_pixel(width: int, height: int, p: (usize, usize)) -> int {
    let x: int = if p.0 < width - 1 { p.0 as int } else { width - 1 };
    let y: int = if p.1 < height - 1 { p.1 as int } else { height - 1 };
    y * width + x
}

/// The seed written to pixel `k` by the first `n` points: the last of them
/// that lands on `k`, or `NO_SEED`.
pub open spec fn seed_at(width: int, height: int, cells: Seq<(usize, usize)>, n: int, k: int) -> u32
    decreases n,
{
    if n <= 0 {
        NO_SEED
    } else if clamped_pixel(width, height, cells[n - 1]) == k {
        (n - 1) as u32
    } else {
        seed_at(width, height, cells, n - 1, k)
    }
}

/// The initial seed map: every pixel holds the index of the last point that
/// lies on it, or `NO_SEED`.
pub open spec fn initial_seeds(width: int, height: int, cells: Seq<(usize, usize)>) -> Seq<u32> {
    Seq::new((width * height) as nat, |k: int| seed_at(width, height, cells, cells.len() as int, k))
}

proof fn lemma_seed_at_range(width: int, height: int, cells: Seq<(usize, usize)>, n: int, k: int)
    requires
        n <= cells.len() < NO_SEED,
    ensures
        seed_at(width, height, cells, n, k) == NO_SEED || seed_at(width, height, cells, n, k) < cells.len(),
    decreases n,
{
    if n > 0 {
        lemma_seed_at_range(width, height, cells, n - 1, k);
    }
}

proof fn lemma_clamped_pixel_bound(width: int, height: int, p: (usize, usize))
    requires
        width >= 1,
        height >= 1,
    ensures
        0 <= clamped_pixel(width, height, p) < width * height,
{
    let x: int = if p.0 < width - 1 { p.0 as int } else { width - 1 };
    let y: int = if p.1 < height - 1 { p.1 as int } else { height - 1 };
    assert(0 <= y * width + x < width * height) by (nonlinear_arith)
        requires 0 <= x < width, 0 <= y < height;
}

/// Writes each point's index on the pixel holding its cell coordinates
/// (clamped to the image); later points overwrite earlier ones.
pub fn seed_map(width: usize, height: usize, cells: &Vec<(usize, usize)>) -> (m: Vec<u32>)
    requires
        width >= 1,
        height >= 1,
        width * height <= usize::MAX,
        cells.len() < NO_SEED,
    ensures
        m@ == initial_seeds(width as int, height as int, cells@),
{
    let n: usize = width * height;
    let mut m: Vec<u32> = vec![NO_SEED; n];
    let mut i: usize = 0;
    while i < cells.len()
        invariant
            width >= 1,
            height >= 1,
            n == width * height,
            cells.len() < NO_SEED,
            i <= cells.len(),
            m@.len() == n,
            forall|k: int| 0 <= k < n ==> #[trigger] m@[k] == seed_at(width as int, height as int, cells@, i as int, k),
        decreases cells.len() - i,
    {
        let (x, y) = cells[i];
        let xi: usize = if x < width - 1 { x } else { width - 1 };
        let yi: usize = if y < height - 1 { y } else { height - 1 };
        proof {
            lemma_clamped_pixel_bound(width as int, height as int, cells@[i as int]);
        }
        let k: usize = yi * width + xi;
        m.set(k, i as u32);
        i += 1;
    }
    proof {
        assert(m@ =~= initial_seeds(width as int, height as int, cells@));
    }
    m
}

/// Whether pixel `q` is `p` or one of its eight neighbours at distance
/// `step` along each axis, in an image `width` pixels wide.
pub open spec fn jump_neighbor(width: int, p: int, q: int, step: int) -> bool {
    let dx = q % width - p % width;
    let dy = q / width - p / width;
    &&& (dx == 0 || dx == step || dx == -step)
    &&& (dy == 0 || dy == step || dy == -step)
}

/// What one flooding pass may produce: each pixel keeps its seed or takes
/// the seed of a jump neighbour that has one.
pub open spec fn pass_outcome(width: int, cur: Seq<u32>, next: Seq<u32>, step: int) -> bool {
    &&& next.len() == cur.len()
    &&& forall|p: int|
        0 <= p < next.len() ==> #[trigger] next[p] == cur[p] || exists|q: int|
            0 <= q < cur.len() && #[trigger] cur[q] != NO_SEED && next[p] == cur[q]
                && jump_neighbor(width, p, q, step)
}

/// What the whole flood may produce from the initial seed map: every pixel
/// holds `NO_SEED` or one of the initial seeds, and a pixel that started with
/// a seed still has one.
pub open spec fn flood_outcome(init: Seq<u32>, m: Seq<u32>) -> bool {
    &&& m.len() == init.len()
    &&& forall|p: int| 0 <= p < m.len() ==> #[trigger] m[p] == NO_SEED || init.contains(m[p])
    &&& forall|p: int| 0 <= p < m.len() ==> #[trigger] init[p] != NO_SEED ==> m[p] != NO_SEED
}

/// Bounds under which the flooding coordinates stay within `i32`.
pub open spec fn flood_fits(width: usize, height: usize, step: i32) -> bool {
    &&& 1 <= width <= i32::MAX
    &&& 1 <= height <= i32::MAX
    &&& width * height <= usize::MAX
    &&& (step < 1 || (width - 1 + step <= i32::MAX && height - 1 + step <= i32::MAX))
}

proof fn lemma_pixel_coords(y: int, x: int, w: int)
    requires
        w > 0,
        0 <= x < w,
        y >= 0,
    ensures
        (y * w + x) / w == y,
        (y * w + x) % w == x,
{
    vstd::arithmetic::div_mod::lemma_fundamental_div_mod_converse(y * w + x, w, y, x);
}

/// Whether `closer` always prefers a seed to no seed at all.
pub open spec fn seeds_beat_none<F: Fn(usize, usize, u32, u32) -> bool>(closer: &F) -> bool {
    forall|x: usize, y: usize, s: u32, r: bool|
        s != NO_SEED && #[trigger] closer.ensures((x, y, s, NO_SEED), r) ==> r
}

/// Position (-1, 0 or 1) of an offset of `-step`, 0 or `step` in scan order.
pub open spec fn scan_rank(o: int, step: int) -> int {
    if o == -step {
        -1
    } else if o == 0 {
        0
    } else {
        1
    }
}

/// Whether neighbour `q` of pixel `p` comes before offset `(dx, dy)` in the
/// row-by-row scan of the eight neighbours.
pub open spec fn scanned_before(width: int, p: int, q: int, step: int, dy: int, dx: int) -> bool {
    let ry = scan_rank(q / width - p / width, step);
    let rx = scan_rank(q % width - p % width, step);
    ry < dy || (ry == dy && rx < dx)
}

proof fn lemma_pixel_split(q: int, w: int, h: int)
    requires
        w > 0,
        0 <= q < w * h,
    ensures
        0 <= q % w < w,
        0 <= q / w < h,
        q == (q / w) * w + q % w,
{
    vstd::arithmetic::div_mod::lemma_fundamental_div_mod(q, w);
    assert(w * (q / w) == (q / w) * w) by (nonlinear_arith);
    let y = q / w;
    let x = q % w;
    assert(0 <= y < h) by (nonlinear_arith)
        requires q == y * w + x, 0 <= x < w, 0 <= q < w * h, w > 0;
}

/// Whether `closer` answers the same for the same arguments.
pub open spec fn deterministic<F: Fn(usize, usize, u32, u32) -> bool>(closer: &F) -> bool {
    forall|x: usize, y: usize, s: u32, b: u32, r1: bool, r2: bool|
        #[trigger] closer.ensures((x, y, s, b), r1) && #[trigger] closer.ensures((x, y, s, b), r2)
            ==> r1 == r2
}

/// Offset along one axis for direction `d` (negative, zero or positive) at
/// distance `step`.
pub open spec fn jump_offset(d: int, step: int) -> int {
    if d < 0 {
        -step
    } else if d > 0 {
        step
    } else {
        0
    }
}

/// Neighbour `k` (0 to 8, row by row from the upper left) of pixel `p` at
/// distance `step`: the pixel's best seed after looking at it. A seeded
/// neighbour on the image replaces `best` exactly when `closer` says its seed
/// is nearer to `p` than `best`; `p` itself and neighbours off the image
/// change nothing.
pub open spec fn scan_step<F: Fn(usize, usize, u32, u32) -> bool>(
    closer: &F,
    width: int,
    height: int,
    cur: Seq<u32>,
    p: int,
    step: int,
    k: int,
    best: u32,
) -> u32 {
    let dy = k / 3 - 1;
    let dx = k % 3 - 1;
    let x = p % width;
    let y = p / width;
    let nx = x + jump_offset(dx, step);
    let ny = y + jump_offset(dy, step);
    if !(dx == 0 && dy == 0) && 0 <= nx < width && 0 <= ny < height {
        let s = cur[ny * width + nx];
        if s != NO_SEED && closer.ensures((x as usize, y as usize, s, best), true) {
            s
        } else {
            best
        }
    } else {
        best
    }
}

/// Pixel `p`'s best seed after the first `k` neighbours of a pass at
/// distance `step`, starting from its own seed.
pub open spec fn scan_best<F: Fn(usize, usize, u32, u32) -> bool>(
    closer: &F,
    width: int,
    height: int,
    cur: Seq<u32>,
    p: int,
    step: int,
    k: int,
) -> u32
    decreases k,
{
    if k <= 0 {
        cur[p]
    } else {
        scan_step(
            closer,
            width,
            height,
            cur,
            p,
            step,
            k - 1,
            scan_best(closer, width, height, cur, p, step, k - 1),
        )
    }
}

/// The seed map after one pass at distance `step`: every pixel takes the
/// nearest seed among its own and its eight jump neighbours', as `closer`
/// judges them in row order.
pub open spec fn pass_result<F: Fn(usize, usize, u32, u32) -> bool>(
    closer: &F,
    width: int,
    height: int,
    cur: Seq<u32>,
    step: int,
) -> Seq<u32> {
    Seq::new(cur.len(), |p: int| scan_best(closer, width, height, cur, p, step, 9))
}

/// The seed map after passes at distances `step`, `step / 2`, ..., 1.
pub open spec fn flood_result<F: Fn(usize, usize, u32, u32) -> bool>(
    closer: &F,
    width: int,
    height: int,
    cur: Seq<u32>,
    step: int,
) -> Seq<u32>
    decreases step,
{
    if step < 1 {
        cur
    } else {
        flood_result(closer, width, height, pass_result(closer, width, height, cur, step), step / 2)
    }
}

proof fn lemma_scan_adopts_at_own_pixel<F: Fn(usize, usize, u32, u32) -> bool>(
    closer: &F,
    width: int,
    height: int,
    cur: Seq<u32>,
    p: int,
    step: int,
    k: int,
)
    ensures
        ({
            let x = (p % width) as usize;
            let y = (p / width) as usize;
            let f = scan_best(closer, width, height, cur, p, step, k);
            &&& f == cur[p] || exists|b: u32| #[trigger] closer.ensures((x, y, f, b), true)
            &&& (forall|s: u32| !#[trigger] closer.ensures((x, y, s, cur[p]), true)) ==> f == cur[p]
        }),
    decreases k,
{
    if k > 0 {
        lemma_scan_adopts_at_own_pixel(closer, width, height, cur, p, step, k - 1);
        let x = (p % width) as usize;
        let y = (p / width) as usize;
        let prev = scan_best(closer, width, height, cur, p, step, k - 1);
        let f = scan_best(closer, width, height, cur, p, step, k);
        if f != prev {
            assert(closer.ensures((x, y, f, prev), true));
        }
    }
}

/// A pass changes a pixel's seed only on the word of `closer` at the pixel's
/// own coordinates: a pixel whose seed no other seed beats there keeps it,
/// and a seed a pixel adopts was judged nearer to that pixel than one it
/// held.
pub proof fn lemma_pass_adopts_at_own_pixel<F: Fn(usize, usize, u32, u32) -> bool>(
    closer: &F,
    width: int,
    height: int,
    cur: Seq<u32>,
    step: int,
    p: int,
)
    requires
        0 <= p < cur.len(),
    ensures
        ({
            let x = (p % width) as usize;
            let y = (p / width) as usize;
            let f = pass_result(closer, width, height, cur, step)[p];
            &&& f == cur[p] || exists|b: u32| #[trigger] closer.ensures((x, y, f, b), true)
            &&& (forall|s: u32| !#[trigger] closer.ensures((x, y, s, cur[p]), true)) ==> f == cur[p]
        }),
{
    lemma_scan_adopts_at_own_pixel(closer, width, height, cur, p, step, 9);
}

/// One pass of the jump flooding algorithm at distance `step`: every pixel
/// looks at its eight neighbours `step` pixels away and adopts a neighbour's
/// seed whenever `closer(x, y, seed, best)` says that seed is nearer to
/// `(x, y)` than its current best.
fn flood_pass<F: Fn(usize, usize, u32, u32) -> bool>(
    width: usize,
    height: usize,
    cur: &Vec<u32>,
    step: i32,
    closer: &F,
) -> (next: Vec<u32>)
    requires
        flood_fits(width, height, step),
        step >= 1,
        cur@.len() == width * height,
        forall|x: usize, y: usize, s: u32, b: u32| #[trigger] closer.requires((x, y, s, b)),
        deterministic(closer),
    ensures
        next@ == pass_result(closer, width as int, height as int, cur@, step as int),
        forall|p: int|
            0 <= p < next@.len() ==> #[trigger] next@[p] == cur@[p] || exists|b: u32|
                #[trigger] closer.ensures(
                    ((p % width as int) as usize, (p / width as int) as usize, next@[p], b),
                    true,
                ),
        forall|p: int|
            0 <= p < next@.len() && (forall|s: u32|
                !#[trigger] closer.ensures(
                    ((p % width as int) as usize, (p / width as int) as usize, s, cur@[p]),
                    true,
                )) ==> #[trigger] next@[p] == cur@[p],
        pass_outcome(width as int, cur@, next@, step as int),
        seeds_beat_none(closer) ==> forall|p: int, q: int|
            0 <= p < next@.len() && 0 <= q < cur@.len() && #[trigger] cur@[q] != NO_SEED
                && jump_neighbor(width as int, p, q, step as int) ==> #[trigger] next@[p] != NO_SEED,
{
    let ghost w = width as int;
    let ghost h = height as int;
    let ghost beats = seeds_beat_none(closer);
    let mut next: Vec<u32> = Vec::new();
    let mut y: usize = 0;
    while y < height
        invariant
            flood_fits(width, height, step),
            step >= 1,
            w == width,
            h == height,
            beats == seeds_beat_none(closer),
            deterministic(closer),
            cur@.len() == width * height,
            forall|x: usize, y: usize, s: u32, b: u32| #[trigger] closer.requires((x, y, s, b)),
            y <= height,
            next@.len() == y * width,
            forall|pp: int| 0 <= pp < next@.len() ==> #[trigger] next@[pp] == scan_best(closer, w, h, cur@, pp, step as int, 9),
            forall|p: int|
                0 <= p < next@.len() ==> #[trigger] next@[p] == cur@[p] || exists|q: int|
                    0 <= q < cur@.len() && #[trigger] cur@[q] != NO_SEED && next@[p] == cur@[q]
                        && jump_neighbor(w, p, q, step as int),
            beats ==> forall|p: int, q: int|
                0 <= p < next@.len() && 0 <= q < cur@.len() && #[trigger] cur@[q] != NO_SEED
                    && jump_neighbor(w, p, q, step as int) ==> #[trigger] next@[p] != NO_SEED,
        decreases height - y,
    {
        let mut x: usize = 0;
        while x < width
            invariant
                flood_fits(width, height, step),
                step >= 1,
                w == width,
                h == height,
                beats == seeds_beat_none(closer),
                deterministic(closer),
                cur@.len() == width * height,
                forall|x: usize, y: usize, s: u32, b: u32| #[trigger] closer.requires((x, y, s, b)),
                y < height,
                x <= width,
                next@.len() == y * width + x,
                forall|pp: int| 0 <= pp < next@.len() ==> #[trigger] next@[pp] == scan_best(closer, w, h, cur@, pp, step as int, 9),
                forall|p: int|
                    0 <= p < next@.len() ==> #[trigger] next@[p] == cur@[p] || exists|q: int|
                        0 <= q < cur@.len() && #[trigger] cur@[q] != NO_SEED && next@[p] == cur@[q]
                            && jump_neighbor(w, p, q, step as int),
                beats ==> forall|p: int, q: int|
                    0 <= p < next@.len() && 0 <= q < cur@.len() && #[trigger] cur@[q] != NO_SEED
                        && jump_neighbor(w, p, q, step as int) ==> #[trigger] next@[p] != NO_SEED,
            decreases width - x,
        {
            proof {
                assert(y * width + x < width * height) by (nonlinear_arith)
                    requires x < width, y < height;
                lemma_pixel_coords(y as int, x as int, w);
            }
            let p: usize = y * width + x;
            let mut best: u32 = cur[p];
            let mut dy: i32 = -1;
            while dy <= 1
                invariant
                    flood_fits(width, height, step),
                    step >= 1,
                    w == width,
                    h == height,
                    beats == seeds_beat_none(closer),
                    deterministic(closer),
                    cur@.len() == width * height,
                    forall|x: usize, y: usize, s: u32, b: u32| #[trigger] closer.requires((x, y, s, b)),
                    y < height,
                    x < width,
                    p == y * width + x,
                    (p as int) / w == y,
                    (p as int) % w == x,
                    -1 <= dy <= 2,
                    best == scan_best(closer, w, h, cur@, p as int, step as int, (dy + 1) * 3),
                    best == cur@[p as int] || exists|q: int|
                        0 <= q < cur@.len() && #[trigger] cur@[q] != NO_SEED && best == cur@[q]
                            && jump_neighbor(w, p as int, q, step as int),
                    best == NO_SEED ==> cur@[p as int] == NO_SEED,
                    beats && best == NO_SEED ==> forall|q: int|
                        0 <= q < cur@.len() && #[trigger] cur@[q] != NO_SEED && jump_neighbor(
                            w,
                            p as int,
                            q,
                            step as int,
                        ) ==> !scanned_before(w, p as int, q, step as int, dy as int, -1),
                decreases 2 - dy,
            {
                let mut dx: i32 = -1;
                while dx <= 1
                    invariant
                        flood_fits(width, height, step),
                        step >= 1,
                        w == width,
                        h == height,
                        beats == seeds_beat_none(closer),
                        deterministic(closer),
                        cur@.len() == width * height,
                        forall|x: usize, y: usize, s: u32, b: u32| #[trigger] closer.requires((x, y, s, b)),
                        y < height,
                        x < width,
                        p == y * width + x,
                        (p as int) / w == y,
                        (p as int) % w == x,
                        -1 <= dy <= 1,
                        -1 <= dx <= 2,
                        best == scan_best(closer, w, h, cur@, p as int, step as int, (dy + 1) * 3 + (dx + 1)),
                        best == cur@[p as int] || exists|q: int|
                            0 <= q < cur@.len() && #[trigger] cur@[q] != NO_SEED && best == cur@[q]
                                && jump_neighbor(w, p as int, q, step as int),
                        best == NO_SEED ==> cur@[p as int] == NO_SEED,
                        beats && best == NO_SEED ==> forall|q: int|
                            0 <= q < cur@.len() && #[trigger] cur@[q] != NO_SEED && jump_neighbor(
                                w,
                                p as int,
                                q,
                                step as int,
                            ) ==> !scanned_before(w, p as int, q, step as int, dy as int, dx as int),
                    decreases 2 - dx,
                {
                    let ghost best0 = best;
                    let ox: i32 = if dx < 0 { -step } else if dx > 0 { step } else { 0 };
                    let oy: i32 = if dy < 0 { -step } else if dy > 0 { step } else { 0 };
                    let nx: i32 = x as i32 + ox;
                    let ny: i32 = y as i32 + oy;
                    let inside: bool = nx >= 0 && ny >= 0 && nx < width as i32 && ny < height as i32;
                    if !(dx == 0 && dy == 0) && inside {
                        let qx: usize = nx as usize;
                        let qy: usize = ny as usize;
                        proof {
                            assert(qy * width + qx < width * height) by (nonlinear_arith)
                                requires qx < width, qy < height;
                            lemma_pixel_coords(qy as int, qx as int, w);
                        }
                        let q: usize = qy * width + qx;
                        let s: u32 = cur[q];
                        if s != NO_SEED {
                            let r = closer(x, y, s, best);
                            proof {
                                if closer.ensures((x, y, s, best0), true) {
                                    assert(r);
                                }
                            }
                            if r {
                                best = s;
                                proof {
                                    assert(jump_neighbor(w, p as int, q as int, step as int));
                                }
                            }
                            proof {
                                if beats && best0 == NO_SEED {
                                    assert(closer.ensures((x, y, s, NO_SEED), r));
                                }
                            }
                        }
                    }
                    proof {
                        if beats && best == NO_SEED {
                            assert(best0 == NO_SEED);
                            assert forall|q: int|
                                0 <= q < cur@.len() && #[trigger] cur@[q] != NO_SEED && jump_neighbor(
                                    w,
                                    p as int,
                                    q,
                                    step as int,
                                ) implies !scanned_before(w, p as int, q, step as int, dy as int, dx + 1) by {
                                lemma_pixel_split(q, w, h);
                                let ry = scan_rank(q / w - y, step as int);
                                let rx = scan_rank(q % w - x, step as int);
                                if ry == dy && rx == dx {
                                    assert(q % w == nx);
                                    assert(q / w == ny);
                                    if dx == 0 && dy == 0 {
                                        assert(q == p);
                                    } else {
                                        assert(inside);
                                        assert(q == (ny as int) * w + (nx as int));
                                    }
                                }
                            }
                        }
                    }
                    proof {
                        let k = (dy + 1) * 3 + (dx + 1);
                        assert(k / 3 - 1 == dy && k % 3 - 1 == dx);
                        assert(best == scan_step(closer, w, h, cur@, p as int, step as int, k, best0));
                    }
                    dx += 1;
                }
                dy += 1;
            }
            proof {
                if beats && best == NO_SEED {
                    assert forall|q: int|
                        0 <= q < cur@.len() && #[trigger] cur@[q] != NO_SEED implies !jump_neighbor(
                            w,
                            p as int,
                            q,
                            step as int,
                        ) by {
                        if jump_neighbor(w, p as int, q, step as int) {
                            assert(!scanned_before(w, p as int, q, step as int, 2, -1));
                        }
                    }
                }
            }
            next.push(best);
            proof {
                assert forall|pp: int| 0 <= pp < next@.len() implies #[trigger] next@[pp] == scan_best(closer, w, h, cur@, pp, step as int, 9) by {
                    if pp == next@.len() - 1 {
                        assert(pp == p);
                    }
                }
                assert forall|pp: int|
                    0 <= pp < next@.len() implies #[trigger] next@[pp] == cur@[pp] || exists|q: int|
                        0 <= q < cur@.len() && #[trigger] cur@[q] != NO_SEED && next@[pp] == cur@[q]
                            && jump_neighbor(w, pp, q, step as int) by {
                    if pp < next@.len() - 1 {
                    } else {
                        assert(pp == p);
                    }
                }
                if beats {
                    assert forall|pp: int, q: int|
                        0 <= pp < next@.len() && 0 <= q < cur@.len() && #[trigger] cur@[q] != NO_SEED
                            && jump_neighbor(w, pp, q, step as int) implies #[trigger] next@[pp] != NO_SEED by {
                        if pp == next@.len() - 1 {
                            assert(pp == p);
                        }
                    }
                }
            }
            x += 1;
        }
        proof {
            assert((y + 1) * width == y * width + width) by (nonlinear_arith);
        }
        y += 1;
    }
    assert(height * width == width * height) by (nonlinear_arith);
    assert(next@ =~= pass_result(closer, w, h, cur@, step as int));
    assert forall|p: int| 0 <= p < next@.len() implies {
        &&& #[trigger] next@[p] == cur@[p] || exists|b: u32|
            #[trigger] closer.ensures(((p % w) as usize, (p / w) as usize, next@[p], b), true)
        &&& (forall|s: u32|
            !#[trigger] closer.ensures(((p % w) as usize, (p / w) as usize, s, cur@[p]), true))
            ==> next@[p] == cur@[p]
    } by {
        lemma_pass_adopts_at_own_pixel(closer, w, h, cur@, step as int, p);
    }
    next
}

/// Whether `n` is a power of two.
pub open spec fn is_pow2(n: int) -> bool
    decreases n,
{
    if n <= 0 {
        false
    } else if n == 1 {
        true
    } else {
        n % 2 == 0 && is_pow2(n / 2)
    }
}

/// One more than the largest displacement that passes at distances
/// `first_step`, `first_step / 2`, ..., 1 can bridge.
pub open spec fn flood_reach(first_step: int) -> int {
    if first_step >= 1 {
        2 * first_step
    } else {
        1
    }
}

/// Whether passes starting at `first_step` can carry a seed across the whole
/// image: the distances halve exactly down to 1 and together span it.
pub open spec fn flood_covers(first_step: i32, width: usize, height: usize) -> bool {
    &&& (first_step < 1 || is_pow2(first_step as int))
    &&& width <= flood_reach(first_step as int)
    &&& height <= flood_reach(first_step as int)
}

/// Every pixel whose offset from some seeded pixel is a multiple of `gran`
/// in both directions, and less than `bound` in size, holds a seed.
pub open spec fn reached(init: Seq<u32>, cur: Seq<u32>, w: int, gran: int, bound: int) -> bool {
    forall|q: int, p0: int|
        0 <= q < cur.len() && 0 <= p0 < init.len() && #[trigger] init[p0] != NO_SEED && (q % w
            - p0 % w) % gran == 0 && (q / w - p0 / w) % gran == 0 && -bound < q % w - p0 % w
            < bound && -bound < q / w - p0 / w < bound ==> #[trigger] cur[q] != NO_SEED
}

proof fn lemma_mod_small_zero(d: int, b: int)
    requires
        b >= 1,
        d % b == 0,
        -b < d < b,
    ensures
        d == 0,
{
    vstd::arithmetic::div_mod::lemma_fundamental_div_mod(d, b);
    let t = d / b;
    assert(d == b * t);
    assert(t == 0) by (nonlinear_arith)
        requires d == b * t, -b < d < b, b >= 1;
}

/// An offset that is a multiple of `s` but not of `2 s` moves one step of
/// size `s` towards zero onto a multiple of `2 s`.
proof fn lemma_step_toward(d: int, s: int)
    requires
        s >= 1,
        d % s == 0,
        d % (2 * s) != 0,
    ensures
        d != 0,
        d > 0 ==> (d - s) % (2 * s) == 0 && d - s >= 0,
        d < 0 ==> (d + s) % (2 * s) == 0 && d + s <= 0,
{
    vstd::arithmetic::div_mod::lemma_fundamental_div_mod(d, 2 * s);
    vstd::arithmetic::div_mod::lemma_fundamental_div_mod(d, s);
    let t = d / (2 * s);
    let r = d % (2 * s);
    let u = d / s;
    assert(d == (2 * s) * t + r);
    assert(d == s * u);
    assert(0 <= r < 2 * s);
    let k = u - 2 * t;
    assert(r == s * k) by (nonlinear_arith)
        requires d == (2 * s) * t + r, d == s * u, k == u - 2 * t;
    assert(0 <= k < 2) by (nonlinear_arith)
        requires r == s * k, 0 <= r < 2 * s, s >= 1;
    assert(k == 0 ==> r == 0) by (nonlinear_arith)
        requires r == s * k;
    assert(k == 1);
    assert(r == s);
    assert(d - s == t * (2 * s) + 0) by (nonlinear_arith)
        requires d == (2 * s) * t + r, r == s;
    assert(d + s == (t + 1) * (2 * s) + 0) by (nonlinear_arith)
        requires d == (2 * s) * t + r, r == s;
    vstd::arithmetic::div_mod::lemma_fundamental_div_mod_converse(d - s, 2 * s, t, 0);
    vstd::arithmetic::div_mod::lemma_fundamental_div_mod_converse(d + s, 2 * s, t + 1, 0);
    assert(d > 0 ==> d - s >= 0) by (nonlinear_arith)
        requires d == (2 * s) * t + s, s >= 1;
    assert(d < 0 ==> d + s <= 0) by (nonlinear_arith)
        requires d == (2 * s) * t + s, s >= 1;
}

/// Offset toward the seed along one axis: none if `d` is already a multiple
/// of `2 s`, otherwise one step of size `s` toward zero.
pub open spec fn toward(d: int, s: int) -> int {
    if d % (2 * s) == 0 {
        0
    } else if d > 0 {
        -s
    } else {
        s
    }
}

proof fn lemma_toward(d: int, s: int, bound: int)
    requires
        s >= 1,
        d % s == 0,
        -bound < d < bound,
    ensures
        (d + toward(d, s)) % (2 * s) == 0,
        -bound < d + toward(d, s) < bound,
        d >= 0 ==> 0 <= d + toward(d, s) <= d,
        d <= 0 ==> d <= d + toward(d, s) <= 0,
        toward(d, s) == 0 || toward(d, s) == s || toward(d, s) == -s,
{
    if d % (2 * s) != 0 {
        lemma_step_toward(d, s);
    }
}

/// After a pass at distance `s` (with `s` a power of two), pixels at offsets
/// that are multiples of `s` are reached, given those at multiples of `2 s`
/// were reached before the pass.
proof fn lemma_pass_reaches(
    init: Seq<u32>,
    cur: Seq<u32>,
    next: Seq<u32>,
    w: int,
    h: int,
    s: int,
    bound: int,
)
    requires
        w >= 1,
        h >= 1,
        s >= 1,
        init.len() == w * h,
        cur.len() == w * h,
        pass_outcome(w, cur, next, s),
        forall|p: int, q: int|
            0 <= p < next.len() && 0 <= q < cur.len() && #[trigger] cur[q] != NO_SEED
                && jump_neighbor(w, p, q, s) ==> #[trigger] next[p] != NO_SEED,
        reached(init, cur, w, 2 * s, bound),
    ensures
        reached(init, next, w, s, bound),
{
    assert forall|q: int, p0: int|
        0 <= q < next.len() && 0 <= p0 < init.len() && #[trigger] init[p0] != NO_SEED && (q % w
            - p0 % w) % s == 0 && (q / w - p0 / w) % s == 0 && -bound < q % w - p0 % w < bound
            && -bound < q / w - p0 / w < bound implies #[trigger] next[q] != NO_SEED by {
        lemma_pixel_split(q, w, h);
        lemma_pixel_split(p0, w, h);
        let dx = q % w - p0 % w;
        let dy = q / w - p0 / w;
        lemma_toward(dx, s, bound);
        lemma_toward(dy, s, bound);
        let qx = q % w + toward(dx, s);
        let qy = q / w + toward(dy, s);
        assert(0 <= qx < w);
        assert(0 <= qy < h);
        let q2 = qy * w + qx;
        assert(0 <= q2 < w * h) by (nonlinear_arith)
            requires q2 == qy * w + qx, 0 <= qx < w, 0 <= qy < h;
        lemma_pixel_coords(qy, qx, w);
        assert(q2 % w - p0 % w == dx + toward(dx, s));
        assert(q2 / w - p0 / w == dy + toward(dy, s));
        assert(cur[q2] != NO_SEED);
        assert(jump_neighbor(w, q, q2, s));
    }
}

/// Before any pass, every seeded pixel is reached, which is all that the
/// coarsest granularity asks for.
proof fn lemma_reached_start(init: Seq<u32>, w: int, h: int, bound: int)
    requires
        w >= 1,
        h >= 1,
        bound >= 1,
        init.len() == w * h,
    ensures
        reached(init, init, w, bound, bound),
{
    assert forall|q: int, p0: int|
        0 <= q < init.len() && 0 <= p0 < init.len() && #[trigger] init[p0] != NO_SEED && (q % w
            - p0 % w) % bound == 0 && (q / w - p0 / w) % bound == 0 && -bound < q % w - p0 % w
            < bound && -bound < q / w - p0 / w < bound implies #[trigger] init[q] != NO_SEED by {
        lemma_pixel_split(q, w, h);
        lemma_pixel_split(p0, w, h);
        lemma_mod_small_zero(q % w - p0 % w, bound);
        lemma_mod_small_zero(q / w - p0 / w, bound);
    }
}

/// At granularity 1, with the image no wider or taller than the bound and
/// some pixel seeded, every pixel is reached.
proof fn lemma_reached_all(init: Seq<u32>, m: Seq<u32>, w: int, h: int, bound: int)
    requires
        w >= 1,
        h >= 1,
        w <= bound,
        h <= bound,
        init.len() == w * h,
        m.len() == w * h,
        reached(init, m, w, 1, bound),
        exists|p: int| 0 <= p < init.len() && init[p] != NO_SEED,
    ensures
        forall|p: int| 0 <= p < m.len() ==> #[trigger] m[p] != NO_SEED,
{
    let p0 = choose|p: int| 0 <= p < init.len() && init[p] != NO_SEED;
    assert forall|p: int| 0 <= p < m.len() implies #[trigger] m[p] != NO_SEED by {
        lemma_pixel_split(p, w, h);
        lemma_pixel_split(p0, w, h);
        assert((p % w - p0 % w) % 1 == 0);
        assert((p / w - p0 / w) % 1 == 0);
    }
}

/// A pass keeps the flood's outcome: seeds still come from the initial map
/// and seeded pixels stay seeded.
proof fn lemma_pass_keeps_outcome(init: Seq<u32>, cur: Seq<u32>, next: Seq<u32>, w: int, s: int)
    requires
        flood_outcome(init, cur),
        pass_outcome(w, cur, next, s),
    ensures
        flood_outcome(init, next),
{
    assert forall|p: int| 0 <= p < next.len() implies #[trigger] next[p] == NO_SEED
        || init.contains(next[p]) by {
        if next[p] != cur[p] {
            let q = choose|q: int|
                0 <= q < cur.len() && #[trigger] cur[q] != NO_SEED && next[p] == cur[q]
                    && jump_neighbor(w, p, q, s);
            assert(cur[q] == NO_SEED || init.contains(cur[q]));
        }
    }
    assert forall|p: int| 0 <= p < next.len() && #[trigger] init[p] != NO_SEED
        implies next[p] != NO_SEED by {
        if next[p] != cur[p] {
            let q = choose|q: int|
                0 <= q < cur.len() && #[trigger] cur[q] != NO_SEED && next[p] == cur[q]
                    && jump_neighbor(w, p, q, s);
        }
    }
}

/// Jump flooding: passes at distances `first_step`, `first_step / 2`, ...,
/// down to 1, each letting pixels adopt nearer seeds from their neighbours.
/// When `closer` prefers any seed to none, the distances halve exactly and
/// span the image, and some pixel starts with a seed, every pixel ends up
/// with one.
pub fn jump_flood<F: Fn(usize, usize, u32, u32) -> bool>(
    width: usize,
    height: usize,
    init: Vec<u32>,
    first_step: i32,
    closer: &F,
) -> (m: Vec<u32>)
    requires
        flood_fits(width, height, first_step),
        init@.len() == width * height,
        forall|x: usize, y: usize, s: u32, b: u32| #[trigger] closer.requires((x, y, s, b)),
        deterministic(closer),
    ensures
        m@ == flood_result(closer, width as int, height as int, init@, first_step as int),
        flood_outcome(init@, m@),
        seeds_beat_none(closer) && flood_covers(first_step, width, height) && (exists|p: int|
            0 <= p < init@.len() && init@[p] != NO_SEED) ==> forall|p: int|
            0 <= p < m@.len() ==> #[trigger] m@[p] != NO_SEED,
{
    let ghost init0 = init@;
    let ghost w = width as int;
    let ghost h = height as int;
    let ghost bound = flood_reach(first_step as int);
    let ghost full = seeds_beat_none(closer) && flood_covers(first_step, width, height);
    let ghost mut gran: int = bound;
    proof {
        lemma_reached_start(init0, w, h, bound);
    }
    let mut cur = init;
    let mut step: i32 = first_step;
    while step >= 1
        invariant
            flood_fits(width, height, step),
            w == width,
            h == height,
            full == (seeds_beat_none(closer) && flood_covers(first_step, width, height)),
            bound == flood_reach(first_step as int),
            cur@.len() == width * height,
            init0.len() == width * height,
            forall|x: usize, y: usize, s: u32, b: u32| #[trigger] closer.requires((x, y, s, b)),
            deterministic(closer),
            flood_result(closer, w, h, cur@, step as int) == flood_result(closer, w, h, init0, first_step as int),
            flood_outcome(init0, cur@),
            full ==> reached(init0, cur@, w, gran, bound),
            full ==> (step >= 1 ==> gran == 2 * step && is_pow2(step as int)),
            full ==> (step < 1 ==> gran == 1),
        decreases step,
    {
        let next = flood_pass(width, height, &cur, step, closer);
        proof {
            assert(flood_result(closer, w, h, cur@, step as int) == flood_result(closer, w, h, next@, step as int / 2));
            lemma_pass_keeps_outcome(init0, cur@, next@, w, step as int);
            if full {
                lemma_pass_reaches(init0, cur@, next@, w, h, step as int, bound);
                gran = step as int;
            }
        }
        cur = next;
        step = step / 2;
    }
    proof {
        if full && (exists|p: int| 0 <= p < init0.len() && init0[p] != NO_SEED) {
            lemma_reached_all(init0, cur@, w, h, bound);
        }
    }
    cur
}

/// Channel `ch` (0 = red, 1 = green, 2 = blue) of a colour.
pub open spec fn channel(c: Rgb8, ch: int) -> int {
    if ch == 0 {
        c.r as int
    } else if ch == 1 {
        c.g as int
    } else {
        c.b as int
    }
}

/// Number of the first `n` pixels claimed by seed `s`.
pub open spec fn cell_size(seeds: Seq<u32>, s: u32, n: int) -> int
    decreases n,
{
    if n <= 0 {
        0
    } else {
        cell_size(seeds, s, n - 1) + if seeds[n - 1] == s { 1int } else { 0int }
    }
}

/// Sum of channel `ch` of the source over the first `n` pixels claimed by seed `s`.
pub open spec fn cell_sum(seeds: Seq<u32>, source: Seq<Rgb8>, s: u32, ch: int, n: int) -> int
    decreases n,
{
    if n <= 0 {
        0
    } else {
        cell_sum(seeds, source, s, ch, n - 1) + if seeds[n - 1] == s {
            channel(source[n - 1], ch)
        } else {
            0
        }
    }
}

/// Average of channel `ch` over the source pixels of seed `s`'s cell,
/// rounded down; 0 for a cell that covers no source pixel.
pub open spec fn cell_mean(seeds: Seq<u32>, source: Seq<Rgb8>, s: u32, ch: int) -> int {
    let n = cell_size(seeds, s, source.len() as int);
    cell_sum(seeds, source, s, ch, source.len() as int) / (if n == 0 { 1 } else { n })
}

/// Colour of pixel `k` of the mosaic: white where no seed claimed it,
/// otherwise the average source colour of its cell.
pub open spec fn mosaic_pixel(seeds: Seq<u32>, source: Seq<Rgb8>, k: int) -> Rgb8 {
    let s = seeds[k];
    if s == NO_SEED {
        white()
    } else {
        Rgb8 {
            r: cell_mean(seeds, source, s, 0) as u8,
            g: cell_mean(seeds, source, s, 1) as u8,
            b: cell_mean(seeds, source, s, 2) as u8,
        }
    }
}

proof fn lemma_cell_sum_bound(seeds: Seq<u32>, source: Seq<Rgb8>, s: u32, ch: int, n: int)
    requires
        0 <= n <= seeds.len(),
        n <= source.len(),
    ensures
        0 <= cell_sum(seeds, source, s, ch, n) <= 255 * cell_size(seeds, s, n),
        0 <= cell_size(seeds, s, n) <= n,
    decreases n,
{
    if n > 0 {
        lemma_cell_sum_bound(seeds, source, s, ch, n - 1);
    }
}

proof fn lemma_mean_fits(sum: int, count: int)
    requires
        0 <= sum <= 255 * count,
        count >= 0,
    ensures
        0 <= sum / (if count == 0 { 1 } else { count }) <= 255,
{
    if count == 0 {
    } else {
        assert(0 <= sum / count <= 255) by (nonlinear_arith)
            requires 0 <= sum <= 255 * count, count > 0;
    }
}

/// Sum of a sequence of integers.
pub open spec fn seq_sum(v: Seq<int>) -> int
    decreases v.len(),
{
    if v.len() == 0 {
        0
    } else {
        seq_sum(v.drop_last()) + v.last()
    }
}

/// 1 for each source pixel that seed `s` claims, 0 for the others.
pub open spec fn claimed_ones(seeds: Seq<u32>, source: Seq<Rgb8>, s: u32) -> Seq<int> {
    Seq::new(source.len(), |j: int| if seeds[j] == s { 1int } else { 0int })
}

/// Channel `ch` of each source pixel that seed `s` claims, 0 for the others.
pub open spec fn claimed_channel(seeds: Seq<u32>, source: Seq<Rgb8>, s: u32, ch: int) -> Seq<int> {
    Seq::new(source.len(), |j: int| if seeds[j] == s { channel(source[j], ch) } else { 0int })
}

/// Whether `v` is the arithmetic mean, rounded down, of channel `ch` over the
/// source pixels that seed `s` claims (0 when it claims none): with `n` such
/// pixels summing to `total`, `n * v <= total < n * (v + 1)`.
pub open spec fn is_floor_mean(seeds: Seq<u32>, source: Seq<Rgb8>, s: u32, ch: int, v: int) -> bool {
    let n = seq_sum(claimed_ones(seeds, source, s));
    let total = seq_sum(claimed_channel(seeds, source, s, ch));
    &&& n > 0 ==> n * v <= total < n * (v + 1)
    &&& n == 0 ==> v == 0
}

/// Whether every channel of `px` is the rounded-down mean of that channel
/// over the source pixels that seed `s` claims.
pub open spec fn is_cell_mean_colour(seeds: Seq<u32>, source: Seq<Rgb8>, s: u32, px: Rgb8) -> bool {
    is_floor_mean(seeds, source, s, 0, px.r as int) && is_floor_mean(seeds, source, s, 1, px.g as int)
        && is_floor_mean(seeds, source, s, 2, px.b as int)
}

proof fn lemma_cell_sums_are_sums(seeds: Seq<u32>, source: Seq<Rgb8>, s: u32, ch: int, m: int)
    requires
        0 <= m <= source.len(),
        source.len() <= seeds.len(),
    ensures
        cell_size(seeds, s, m) == seq_sum(
            Seq::new(m as nat, |j: int| if seeds[j] == s { 1int } else { 0int }),
        ),
        cell_sum(seeds, source, s, ch, m) == seq_sum(
            Seq::new(m as nat, |j: int| if seeds[j] == s { channel(source[j], ch) } else { 0int }),
        ),
    decreases m,
{
    if m > 0 {
        lemma_cell_sums_are_sums(seeds, source, s, ch, m - 1);
        let f1 = |j: int| if seeds[j] == s { 1int } else { 0int };
        let f2 = |j: int| if seeds[j] == s { channel(source[j], ch) } else { 0int };
        assert(Seq::new(m as nat, f1).drop_last() =~= Seq::new((m - 1) as nat, f1));
        assert(Seq::new(m as nat, f2).drop_last() =~= Seq::new((m - 1) as nat, f2));
    }
}

/// Each channel of a claimed pixel of the mosaic is the rounded-down
/// arithmetic mean of that channel over all source pixels of its cell.
pub proof fn lemma_mosaic_is_cell_mean(seeds: Seq<u32>, source: Seq<Rgb8>, k: int, ch: int)
    requires
        0 <= k < seeds.len(),
        source.len() <= seeds.len(),
        seeds[k] != NO_SEED,
        0 <= ch < 3,
    ensures
        is_floor_mean(seeds, source, seeds[k], ch, channel(mosaic_pixel(seeds, source, k), ch)),
{
    let s = seeds[k];
    let m = source.len() as int;
    lemma_cell_sums_are_sums(seeds, source, s, ch, m);
    lemma_cell_sum_bound(seeds, source, s, ch, m);
    let n = cell_size(seeds, s, m);
    let total = cell_sum(seeds, source, s, ch, m);
    lemma_mean_fits(total, n);
    let q = cell_mean(seeds, source, s, ch);
    assert(channel(mosaic_pixel(seeds, source, k), ch) == q);
    let ns = claimed_ones(seeds, source, s);
    let ts = claimed_channel(seeds, source, s, ch);
    assert(ns =~= Seq::new(m as nat, |j: int| if seeds[j] == s { 1int } else { 0int }));
    assert(ts =~= Seq::new(
        m as nat,
        |j: int| if seeds[j] == s { channel(source[j], ch) } else { 0int },
    ));
    assert(seq_sum(ns) == n);
    assert(seq_sum(ts) == total);
    if n > 0 {
        vstd::arithmetic::div_mod::lemma_fundamental_div_mod(total, n);
        assert(0 <= total % n < n);
        assert(n * q <= total < n * (q + 1)) by (nonlinear_arith)
            requires total == n * q + total % n, 0 <= total % n < n;
    } else {
        assert(total == 0);
    }
}

/// Every claimed pixel of a mosaic has, on each channel, the rounded-down mean
/// of its cell's source pixels.
proof fn lemma_mosaic_means(seeds: Seq<u32>, source: Seq<Rgb8>, out: Seq<Rgb8>)
    requires
        out.len() == seeds.len(),
        source.len() <= seeds.len(),
        forall|k: int| 0 <= k < out.len() ==> #[trigger] out[k] == mosaic_pixel(seeds, source, k),
    ensures
        forall|k: int|
            0 <= k < out.len() && seeds[k] != NO_SEED ==> is_cell_mean_colour(
                seeds,
                source,
                seeds[k],
                #[trigger] out[k],
            ),
{
    assert forall|k: int| 0 <= k < out.len() && seeds[k] != NO_SEED implies is_cell_mean_colour(
        seeds,
        source,
        seeds[k],
        #[trigger] out[k],
    ) by {
        lemma_mosaic_is_cell_mean(seeds, source, k, 0);
        lemma_mosaic_is_cell_mean(seeds, source, k, 1);
        lemma_mosaic_is_cell_mean(seeds, source, k, 2);
    }
}

/// Colours each pixel by the average source colour of its seed's cell
/// (white where no seed claimed the pixel).
pub fn paint_cells(seeds: &Vec<u32>, source: &Vec<Rgb8>, n_points: usize) -> (out: Vec<Rgb8>)
    requires
        source@.len() <= seeds@.len(),
        seeds@.len() * 255 <= u64::MAX,
        forall|k: int| 0 <= k < seeds@.len() ==> #[trigger] seeds@[k] == NO_SEED || seeds@[k] < n_points,
    ensures
        out@.len() == seeds@.len(),
        forall|k: int| 0 <= k < out@.len() ==> #[trigger] out@[k] == mosaic_pixel(seeds@, source@, k),
        forall|k: int|
            0 <= k < out@.len() && seeds@[k] != NO_SEED ==> is_cell_mean_colour(
                seeds@,
                source@,
                seeds@[k],
                #[trigger] out@[k],
            ),
        forall|k: int| 0 <= k < out@.len() && seeds@[k] == NO_SEED ==> #[trigger] out@[k] == white(),
{
    let mut sum_r: Vec<u64> = vec![0u64; n_points];
    let mut sum_g: Vec<u64> = vec![0u64; n_points];
    let mut sum_b: Vec<u64> = vec![0u64; n_points];
    let mut counts: Vec<u64> = vec![0u64; n_points];
    let mut j: usize = 0;
    while j < source.len()
        invariant
            source@.len() <= seeds@.len(),
            seeds@.len() * 255 <= u64::MAX,
            forall|k: int| 0 <= k < seeds@.len() ==> #[trigger] seeds@[k] == NO_SEED || seeds@[k] < n_points,
            j <= source@.len(),
            sum_r@.len() == n_points,
            sum_g@.len() == n_points,
            sum_b@.len() == n_points,
            counts@.len() == n_points,
            forall|i: int| 0 <= i < n_points && i < NO_SEED ==> #[trigger] sum_r@[i] == cell_sum(seeds@, source@, i as u32, 0, j as int),
            forall|i: int| 0 <= i < n_points && i < NO_SEED ==> #[trigger] sum_g@[i] == cell_sum(seeds@, source@, i as u32, 1, j as int),
            forall|i: int| 0 <= i < n_points && i < NO_SEED ==> #[trigger] sum_b@[i] == cell_sum(seeds@, source@, i as u32, 2, j as int),
            forall|i: int| 0 <= i < n_points && i < NO_SEED ==> #[trigger] counts@[i] == cell_size(seeds@, i as u32, j as int),
        decreases source@.len() - j,
    {
        let s = seeds[j];
        if s != NO_SEED {
            let i: usize = s as usize;
            proof {
                lemma_cell_sum_bound(seeds@, source@, s, 0, j as int);
                lemma_cell_sum_bound(seeds@, source@, s, 1, j as int);
                lemma_cell_sum_bound(seeds@, source@, s, 2, j as int);
                assert(255 * cell_size(seeds@, s, j as int) <= 255 * j) by (nonlinear_arith)
                    requires cell_size(seeds@, s, j as int) <= j;
                assert(j * 255 + 255 <= seeds@.len() * 255) by (nonlinear_arith)
                    requires j < seeds@.len();
                assert(sum_r@[i as int] == cell_sum(seeds@, source@, i as u32, 0, j as int));
            }
            let px = source[j];
            sum_r.set(i, sum_r[i] + px.r as u64);
            sum_g.set(i, sum_g[i] + px.g as u64);
            sum_b.set(i, sum_b[i] + px.b as u64);
            counts.set(i, counts[i] + 1);
        }
        proof {
            assert forall|i: int| 0 <= i < n_points && i < NO_SEED implies
                #[trigger] sum_r@[i] == cell_sum(seeds@, source@, i as u32, 0, j + 1)
                && sum_g@[i] == cell_sum(seeds@, source@, i as u32, 1, j + 1)
                && sum_b@[i] == cell_sum(seeds@, source@, i as u32, 2, j + 1)
                && counts@[i] == cell_size(seeds@, i as u32, j + 1) by {
                assert((i as u32) as int == i);
                assert(cell_sum(seeds@, source@, i as u32, 0, j + 1) == cell_sum(seeds@, source@, i as u32, 0, j as int)
                    + if seeds@[j as int] == i as u32 { channel(source@[j as int], 0) } else { 0 });
                assert(cell_sum(seeds@, source@, i as u32, 1, j + 1) == cell_sum(seeds@, source@, i as u32, 1, j as int)
                    + if seeds@[j as int] == i as u32 { channel(source@[j as int], 1) } else { 0 });
                assert(cell_sum(seeds@, source@, i as u32, 2, j + 1) == cell_sum(seeds@, source@, i as u32, 2, j as int)
                    + if seeds@[j as int] == i as u32 { channel(source@[j as int], 2) } else { 0 });
                assert(cell_size(seeds@, i as u32, j + 1) == cell_size(seeds@, i as u32, j as int)
                    + if seeds@[j as int] == i as u32 { 1int } else { 0int });
            }
        }
        j += 1;
    }
    let mut out: Vec<Rgb8> = Vec::new();
    let mut k: usize = 0;
    while k < seeds.len()
        invariant
            source@.len() <= seeds@.len(),
            forall|k: int| 0 <= k < seeds@.len() ==> #[trigger] seeds@[k] == NO_SEED || seeds@[k] < n_points,
            j == source@.len(),
            k <= seeds@.len(),
            sum_r@.len() == n_points,
            sum_g@.len() == n_points,
            sum_b@.len() == n_points,
            counts@.len() == n_points,
            forall|i: int| 0 <= i < n_points && i < NO_SEED ==> #[trigger] sum_r@[i] == cell_sum(seeds@, source@, i as u32, 0, j as int),
            forall|i: int| 0 <= i < n_points && i < NO_SEED ==> #[trigger] sum_g@[i] == cell_sum(seeds@, source@, i as u32, 1, j as int),
            forall|i: int| 0 <= i < n_points && i < NO_SEED ==> #[trigger] sum_b@[i] == cell_sum(seeds@, source@, i as u32, 2, j as int),
            forall|i: int| 0 <= i < n_points && i < NO_SEED ==> #[trigger] counts@[i] == cell_size(seeds@, i as u32, j as int),
            out@.len() == k,
            forall|p: int| 0 <= p < k ==> #[trigger] out@[p] == mosaic_pixel(seeds@, source@, p),
        decreases seeds@.len() - k,
    {
        let s = seeds[k];
        if s == NO_SEED {
            out.push(Rgb8 { r: 255, g: 255, b: 255 });
        } else {
            let i: usize = s as usize;
            let c: u64 = if counts[i] < 1 { 1 } else { counts[i] };
            proof {
                assert(sum_r@[i as int] == cell_sum(seeds@, source@, i as u32, 0, j as int));
                let n = source@.len() as int;
                lemma_cell_sum_bound(seeds@, source@, s, 0, n);
                lemma_cell_sum_bound(seeds@, source@, s, 1, n);
                lemma_cell_sum_bound(seeds@, source@, s, 2, n);
                let cnt = cell_size(seeds@, s, n);
                lemma_mean_fits(cell_sum(seeds@, source@, s, 0, n), cnt);
                lemma_mean_fits(cell_sum(seeds@, source@, s, 1, n), cnt);
                lemma_mean_fits(cell_sum(seeds@, source@, s, 2, n), cnt);
            }
            let colour = Rgb8 {
                r: (sum_r[i] / c) as u8,
                g: (sum_g[i] / c) as u8,
                b: (sum_b[i] / c) as u8,
            };
            out.push(colour);
        }
        k += 1;
    }
    proof {
        lemma_mosaic_means(seeds@, source@, out@);
    }
    out
}

/// The smallest power of two that is at least `n`, searching upward from `p`.
pub open spec fn pow2_at_least(n: int, p: int) -> int
    decreases (if n > p { n - p } else { 0 }) as nat,
{
    if p >= n || p < 1 {
        p
    } else {
        pow2_at_least(n, 2 * p)
    }
}

/// The first jump distance for an image whose longer side is `longest`: half
/// the smallest power of two that is at least `longest`.
pub open spec fn jump_start(longest: int) -> int {
    pow2_at_least(longest, 1) / 2
}

proof fn lemma_pow2_double(p: int)
    requires
        is_pow2(p),
    ensures
        is_pow2(2 * p),
{
    assert((2 * p) / 2 == p);
}

/// The first jump distance for an image whose longer side is `longest`:
/// half the smallest power of two that is at least `longest` (0 when
/// `longest` is 0 or 1). It is itself a power of two when positive, and
/// twice it spans the longer side.
pub fn first_jump_step(longest: u32) -> (s: u32)
    ensures
        s == jump_start(longest as int),
        longest <= 1 ==> s == 0,
        longest > 1 ==> is_pow2(s as int) && s < longest <= 2 * s,
{
    let mut p: u64 = 1;
    while p < longest as u64
        invariant
            is_pow2(p as int),
            1 <= p <= 2 * (longest as int) + 1,
            p == 1 || p / 2 < longest,
            pow2_at_least(longest as int, p as int) == pow2_at_least(longest as int, 1),
        decreases 2 * (longest as int) + 1 - p,
    {
        proof {
            lemma_pow2_double(p as int);
        }
        p = p * 2;
    }
    proof {
        if p >= 2 {
            assert(p % 2 == 0);
            assert(is_pow2((p / 2) as int));
        }
    }
    (p / 2) as u32
}

/// Bounds under which a mosaic of the image can be flooded: the first jump
/// distance and the flooding coordinates stay within `i32`.
pub open spec fn voronoi_fits(width: u32, height: u32) -> bool {
    let longest: int = if width > height { width as int } else { height as int };
    &&& jump_start(longest) <= i32::MAX
    &&& flood_fits(width as usize, height as usize, jump_start(longest) as i32)
}

/// The seed map of a mosaic: the initial seeds of the points' cells,
/// flooded from half the smallest power of two spanning the image.
pub open spec fn voronoi_seeds<F: Fn(usize, usize, u32, u32) -> bool>(
    closer: &F,
    width: u32,
    height: u32,
    cells: Seq<(usize, usize)>,
) -> Seq<u32> {
    flood_result(
        closer,
        width as int,
        height as int,
        initial_seeds(width as int, height as int, cells),
        jump_start(if width > height { width as int } else { height as int }),
    )
}

/// Render a Voronoi mosaic via the jump flooding algorithm: seeds start on
/// the pixels of the points' cell coordinates, flood outward in passes of
/// halving distance (from half the smallest power of two that spans the
/// image), and each cell is coloured by the
/// average source colour of its pixels. `closer(x, y, s, b)` decides whether
/// seed `s` is nearer to pixel `(x, y)` than seed `b`. With no points the
/// canvas is white.
#[verifier::rlimit(40)]
pub fn render_voronoi<F: Fn(usize, usize, u32, u32) -> bool>(
    width: u32,
    height: u32,
    source: &Canvas,
    cells: &Vec<(usize, usize)>,
    closer: &F,
) -> (c: Canvas)
    requires
        image_fits(width, height),
        cells@.len() < NO_SEED,
        cells@.len() > 0 ==> width * height * 255 <= u64::MAX,
        cells@.len() > 0 ==> source.pixels@.len() <= width * height,
        cells@.len() > 0 ==> voronoi_fits(width, height),
        forall|x: usize, y: usize, s: u32, b: u32| #[trigger] closer.requires((x, y, s, b)),
        deterministic(closer),
    ensures
        c.wf(),
        c.width == width,
        c.height == height,
        cells@.len() == 0 ==> forall|k: int| 0 <= k < c.pixels@.len() ==> #[trigger] c.pixels@[k] == white(),
        cells@.len() > 0 ==> flood_outcome(
            initial_seeds(width as int, height as int, cells@),
            voronoi_seeds(closer, width, height, cells@),
        ),
        cells@.len() > 0 && seeds_beat_none(closer) ==> forall|k: int|
            0 <= k < voronoi_seeds(closer, width, height, cells@).len() ==> #[trigger] voronoi_seeds(
                closer,
                width,
                height,
                cells@,
            )[k] != NO_SEED,
        cells@.len() > 0 ==> forall|k: int|
            0 <= k < c.pixels@.len() ==> #[trigger] c.pixels@[k] == mosaic_pixel(
                voronoi_seeds(closer, width, height, cells@),
                source.pixels@,
                k,
            ),
        cells@.len() > 0 ==> forall|k: int|
            0 <= k < c.pixels@.len() && voronoi_seeds(closer, width, height, cells@)[k] != NO_SEED
                ==> is_cell_mean_colour(
                voronoi_seeds(closer, width, height, cells@),
                source.pixels@,
                voronoi_seeds(closer, width, height, cells@)[k],
                #[trigger] c.pixels@[k],
            ),
{
    if cells.len() == 0 {
        return filled_canvas(width, height, Rgb8 { r: 255, g: 255, b: 255 });
    }
    let w: usize = width as usize;
    let h: usize = height as usize;
    assert(width * height <= width * height * 3) by (nonlinear_arith);
    let init = seed_map(w, h, cells);
    let ghost init0 = init@;
    proof {
        let last = cells@[cells@.len() - 1];
        let k0 = clamped_pixel(w as int, h as int, last);
        lemma_clamped_pixel_bound(w as int, h as int, last);
        assert(init0[k0] == seed_at(w as int, h as int, cells@, cells@.len() as int, k0));
        assert(init0[k0] != NO_SEED);
    }
    let longest: u32 = if width > height { width } else { height };
    let first: u32 = first_jump_step(longest);
    let first_step: i32 = first as i32;
    proof {
        if longest <= 1 {
            assert(width <= 1 && height <= 1);
        }
        assert(flood_covers(first_step, w, h));
    }
    let seeds = jump_flood(w, h, init, first_step, closer);
    proof {
        assert forall|k: int| 0 <= k < seeds@.len() implies #[trigger] seeds@[k] == NO_SEED || seeds@[k]
            < cells@.len() by {
            if seeds@[k] != NO_SEED {
                let q = choose|q: int| 0 <= q < init0.len() && init0[q] == seeds@[k];
                lemma_seed_at_range(w as int, h as int, cells@, cells@.len() as int, q);
            }
        }
        assert(seeds@.len() * 255 <= u64::MAX) by (nonlinear_arith)
            requires seeds@.len() == width * height, width * height * 255 <= u64::MAX;
    }
    let pixels = paint_cells(&seeds, &source.pixels, cells.len());
    proof {
        let m = seeds@;
        assert(m == voronoi_seeds(closer, width, height, cells@));
        assert(m.len() == pixels@.len());
        let vs = voronoi_seeds(closer, width, height, cells@);
        let src = source.pixels@;
        lemma_mosaic_means(vs, src, pixels@);
        assert forall|k: int| 0 <= k < pixels@.len() implies #[trigger] pixels@[k] == mosaic_pixel(
            vs,
            src,
            k,
        ) by {}
    }
    Canvas { width, height, pixels }
}

} // verus!
