//! Color gradients: ordered stops, lookup by linear interpolation or by
//! nearest stop, construction with uniform or explicit positions, and
//! position mirroring (inversion).
use vstd::prelude::*;
use vstd::seq_lib::*;
use vstd::arithmetic::div_mod::{
    lemma_div_is_ordered, lemma_div_multiples_vanish, lemma_div_pos_is_pos,
    lemma_multiply_divide_le,
};
use vstd::arithmetic::mul::{lemma_mul_inequality, lemma_mul_upper_bound};

verus! {

use crate::SCALE;

/// One anchor of a gradient: a fixed-point position in `[0, SCALE]`
/// paired with an RGB color.
#[derive(Clone, Copy, PartialEq, Eq, Debug)]
pub struct GradientStop {
    pub pos: u32,
    pub color: [u8; 3],
}

/// A stop position is valid when it lies inside the unit interval.
pub open spec fn stop_in_range(st: GradientStop) -> bool {
    st.pos <= SCALE
}

/// Stops are ordered by ascending position.
pub open spec fn sorted_stops(s: Seq<GradientStop>) -> bool {
    forall|i: int, j: int| 0 <= i <= j < s.len() ==> s[i].pos <= s[j].pos
}

/// A well-formed gradient: at least two stops, every position in the
/// unit interval, positions ascending.
pub open spec fn wf_stops(s: Seq<GradientStop>) -> bool {
    &&& s.len() >= 2
    &&& forall|i: int| 0 <= i < s.len() ==> stop_in_range(#[trigger] s[i])
    &&& sorted_stops(s)
}

/// Mirror a stop inside the unit interval: position `p` becomes
/// `SCALE - p`, the color is unchanged.
pub open spec fn mirror_stop(st: GradientStop) -> GradientStop {
    GradientStop { pos: (SCALE - st.pos) as u32, color: st.color }
}

/// Mirror every stop of a sequence.
pub open spec fn mirror_seq(s: Seq<GradientStop>) -> Seq<GradientStop> {
    s.map_values(|st: GradientStop| mirror_stop(st))
}

/// Position of the `i`-th of `n` uniformly spaced stops: `i/(n-1)`
/// in fixed point.
pub open spec fn uniform_pos(i: int, n: int) -> int {
    i * (SCALE as int) / (n - 1)
}

/// Distance between two positions.
pub open spec fn idist(a: int, b: int) -> int {
    if a >= b {
        a - b
    } else {
        b - a
    }
}

/// The interpolation fraction of `v` between positions `lo` and `hi`,
/// in fixed point, truncated.
pub open spec fn spec_frac(v: int, lo: int, hi: int) -> int {
    (v - lo) * (SCALE as int) / (hi - lo)
}

/// One channel blended at fraction `f`: `(1-f)*lo + f*hi`, truncated.
pub open spec fn blend_channel(f: int, lo: int, hi: int) -> int {
    ((SCALE as int - f) * lo + f * hi) / (SCALE as int)
}

/// All three channels of `lower` and `upper` blended at fraction `f`.
pub open spec fn spec_blend(f: int, lower: [u8; 3], upper: [u8; 3]) -> [u8; 3] {
    [
        blend_channel(f, lower[0] as int, upper[0] as int) as u8,
        blend_channel(f, lower[1] as int, upper[1] as int) as u8,
        blend_channel(f, lower[2] as int, upper[2] as int) as u8,
    ]
}

/// Whether the pair of stops at `i` and `i+1` brackets the value `v`.
pub open spec fn brackets(s: Seq<GradientStop>, i: int, v: int) -> bool {
    s[i].pos <= v <= s[i + 1].pos
}

/// The color of `v` found by scanning adjacent stop pairs from index
/// `i` upward: the first bracketing pair blends, exhaustion clamps to
/// the last stop.
pub open spec fn spec_color_scan(s: Seq<GradientStop>, v: int, i: int) -> [u8; 3]
    recommends
        s.len() >= 1,
        0 <= i,
    decreases s.len() - i,
{
    if i + 1 >= s.len() {
        s[s.len() - 1].color
    } else if brackets(s, i, v) {
        spec_blend(
            spec_frac(v, s[i].pos as int, s[i + 1].pos as int),
            s[i].color,
            s[i + 1].color,
        )
    } else {
        spec_color_scan(s, v, i + 1)
    }
}

/// Interpolated gradient lookup: values at or below the first stop
/// clamp to it, values above it take the first bracketing segment.
pub open spec fn spec_color(s: Seq<GradientStop>, v: int) -> [u8; 3] {
    if v <= s[0].pos {
        s[0].color
    } else {
        spec_color_scan(s, v, 0)
    }
}

/// The index of the stop nearest to `v`, scanning from index `i`
/// with current best `best`: only a strictly smaller distance
/// replaces the best, so the first of equally near stops wins.
pub open spec fn spec_nearest_from(s: Seq<GradientStop>, v: int, i: int, best: int) -> int
    recommends
        1 <= i <= s.len(),
        0 <= best < s.len(),
    decreases s.len() - i,
{
    if i >= s.len() {
        best
    } else if idist(s[i].pos as int, v) < idist(s[best].pos as int, v) {
        spec_nearest_from(s, v, i + 1, i)
    } else {
        spec_nearest_from(s, v, i + 1, best)
    }
}

/// The index of the stop nearest to `v`, earliest stop winning ties.
pub open spec fn spec_nearest_idx(s: Seq<GradientStop>, v: int) -> int {
    spec_nearest_from(s, v, 1, 0)
}

/// An ordered color gradient. Every constructor returns a well-formed
/// palette (`wf`), and the lookup functions require one.
pub struct Palette {
    pub stops: Vec<GradientStop>,
}

impl Palette {
    /// The palette invariant: see `wf_stops`.
    pub open spec fn wf(self) -> bool {
        wf_stops(self.stops@)
    }

    /// Uniformly spaced gradient: stop `i` of `n` sits at position
    /// `i/(n-1)`, colors keep their input order.
    pub fn new(colors: Vec<[u8; 3]>) -> (r: Palette)
        requires
            colors@.len() >= 2,
        ensures
            r.wf(),
            r.stops@.len() == colors@.len(),
            forall|i: int|
                0 <= i < colors@.len() ==> (#[trigger] r.stops@[i]).color == colors@[i]
                    && r.stops@[i].pos == uniform_pos(i, colors@.len() as int),
    {
        let n = colors.len();
        let mut stops: Vec<GradientStop> = Vec::new();
        let mut idx: usize = 0;
        while idx < n
            invariant
                2 <= n == colors@.len(),
                idx <= n,
                stops@.len() == idx,
                forall|i: int|
                    0 <= i < idx ==> (#[trigger] stops@[i]).color == colors@[i]
                        && stops@[i].pos == uniform_pos(i, n as int),
                forall|i: int| 0 <= i < idx ==> stop_in_range(#[trigger] stops@[i]),
            decreases n - idx,
        {
            proof {
                lemma_mul_upper_bound(idx as int, usize::MAX as int, SCALE as int, SCALE as int);
                lemma_mul_inequality(idx as int, n - 1, SCALE as int);
                lemma_div_is_ordered(idx * (SCALE as int), (n - 1) * (SCALE as int), n - 1);
                lemma_div_multiples_vanish(SCALE as int, n - 1);
                assert((n - 1) * (SCALE as int) / (n - 1) == SCALE);
                assert(uniform_pos(idx as int, n as int) <= SCALE);
                assert(idx * (SCALE as int) >= 0) by (nonlinear_arith)
                    requires idx >= 0;
            }
            let p128: u128 = (idx as u128) * (SCALE as u128) / ((n - 1) as u128);
            let p: u32 = p128 as u32;
            let c: [u8; 3] = colors[idx];
            stops.push(GradientStop { pos: p, color: c });
            idx += 1;
        }
        proof {
            assert forall|i: int, j: int| 0 <= i <= j < stops@.len()
                implies stops@[i].pos <= stops@[j].pos by {
                lemma_mul_inequality(i, j, SCALE as int);
                lemma_div_is_ordered(i * (SCALE as int), j * (SCALE as int), n - 1);
            }
        }
        Palette { stops }
    }

    /// Gradient from explicit `(position, color)` stops: the stops are
    /// sorted ascending by position; every position must lie in the
    /// unit interval and at least two stops must be given.
    pub fn levels(stops: Vec<GradientStop>) -> (r: Palette)
        requires
            stops@.len() >= 2,
            forall|i: int| 0 <= i < stops@.len() ==> stop_in_range(#[trigger] stops@[i]),
        ensures
            r.wf(),
            r.stops@.len() == stops@.len(),
            r.stops@.to_multiset() == stops@.to_multiset(),
    {
        let n = stops.len();
        let mut out: Vec<GradientStop> = Vec::new();
        proof {
            assert(out@ =~= stops@.subrange(0, 0));
        }
        let mut idx: usize = 0;
        while idx < n
            invariant
                n == stops@.len(),
                idx <= n,
                out@.len() == idx,
                sorted_stops(out@),
                out@.to_multiset() == stops@.subrange(0, idx as int).to_multiset(),
                forall|i: int| 0 <= i < stops@.len() ==> stop_in_range(#[trigger] stops@[i]),
                forall|i: int| 0 <= i < out@.len() ==> stop_in_range(#[trigger] out@[i]),
            decreases n - idx,
        {
            let st = stops[idx];
            let mut k: usize = 0;
            while k < out.len() && out[k].pos <= st.pos
                invariant
                    k <= out@.len(),
                    forall|j: int| 0 <= j < k ==> (#[trigger] out@[j]).pos <= st.pos,
                decreases out@.len() - k,
            {
                k += 1;
            }
            let ghost pre = out@;
            out.insert(k, st);
            proof {
                assert forall|j: int| k <= j < pre.len() implies st.pos < (#[trigger] pre[j]).pos by {
                    assert(pre[k as int].pos <= pre[j].pos);
                }
                pre.insert_ensures(k as int, st);
                assert(out@ == pre.insert(k as int, st));
                assert forall|a: int, b: int| 0 <= a <= b < out@.len()
                    implies out@[a].pos <= out@[b].pos by {
                    if a < k && b < k {
                        assert(out@[a] == pre[a] && out@[b] == pre[b]);
                    } else if a < k && b == k {
                        assert(out@[a] == pre[a] && out@[b] == st);
                    } else if a < k && b > k {
                        assert(out@[a] == pre[a] && out@[b] == pre[b - 1]);
                    } else if a == k && b == k {
                    } else if a == k && b > k {
                        assert(out@[b] == pre[b - 1] && st.pos < pre[b - 1].pos);
                    } else {
                        assert(out@[a] == pre[a - 1] && out@[b] == pre[b - 1]);
                    }
                }
                assert forall|i: int| 0 <= i < out@.len()
                    implies stop_in_range(#[trigger] out@[i]) by {
                    if i < k {
                        assert(out@[i] == pre[i]);
                    } else if i == k {
                        assert(out@[i] == st);
                    } else {
                        assert(out@[i] == pre[i - 1]);
                    }
                }
                to_multiset_insert(pre, k as int, st);
                assert(stops@.subrange(0, idx as int).push(st)
                    =~= stops@.subrange(0, idx as int + 1));
                to_multiset_build(stops@.subrange(0, idx as int), st);
            }
            idx += 1;
        }
        proof {
            assert(stops@.subrange(0, n as int) =~= stops@);
        }
        Palette { stops: out }
    }

    /// The mirrored gradient: each stop position `p` becomes `1 - p`,
    /// colors are unchanged, and the result is rebuilt through
    /// `levels` so its stops are again sorted.
    pub fn inverse(&self) -> (r: Palette)
        requires
            self.wf(),
        ensures
            r.wf(),
            r.stops@.len() == self.stops@.len(),
            r.stops@.to_multiset() == mirror_seq(self.stops@).to_multiset(),
    {
        let n = self.stops.len();
        let mut flipped: Vec<GradientStop> = Vec::new();
        let mut idx: usize = 0;
        while idx < n
            invariant
                n == self.stops@.len(),
                wf_stops(self.stops@),
                idx <= n,
                flipped@.len() == idx,
                forall|i: int| 0 <= i < idx ==> #[trigger] flipped@[i] == mirror_stop(self.stops@[i]),
            decreases n - idx,
        {
            let st = self.stops[idx];
            flipped.push(GradientStop { pos: SCALE - st.pos, color: st.color });
            idx += 1;
        }
        proof {
            assert(flipped@ =~= mirror_seq(self.stops@));
        }
        Self::levels(flipped)
    }

    /// Interpolated lookup: clamp below the first and above the last
    /// stop, blend linearly inside the first bracketing segment.
    pub fn color(&self, value: u32) -> (r: [u8; 3])
        requires
            self.wf(),
            value <= SCALE,
        ensures
            r == spec_color(self.stops@, value as int),
    {
        let s = &self.stops;
        let n = s.len();
        if value <= s[0].pos {
            return s[0].color;
        }
        let mut i: usize = 0;
        while i + 1 < n
            invariant
                s@ == self.stops@,
                wf_stops(s@),
                n == s@.len(),
                0 <= i && i + 1 <= n,
                value > s@[0].pos,
                value <= SCALE,
                forall|k: int| 0 <= k < i ==> !brackets(s@, k, value as int),
                spec_color_scan(s@, value as int, i as int)
                    == spec_color_scan(s@, value as int, 0),
            decreases n - i,
        {
            let prev = s[i];
            let next = s[i + 1];
            if prev.pos <= value && value <= next.pos {
                proof {
                    // The first bracketing segment of a value above the
                    // first stop has positive width: were the segment
                    // zero-width, the preceding pair would bracket too.
                    if prev.pos == next.pos {
                        assert(value == prev.pos);
                        assert(i > 0);
                        assert(s@[i - 1].pos <= s@[i as int].pos);
                        assert(brackets(s@, i - 1, value as int));
                    }
                }
                proof {
                    lemma_mul_upper_bound(
                        value - prev.pos,
                        SCALE as int,
                        SCALE as int,
                        SCALE as int,
                    );
                    lemma_mul_inequality(
                        value - prev.pos,
                        next.pos - prev.pos,
                        SCALE as int,
                    );
                    lemma_div_is_ordered(
                        (value - prev.pos) * (SCALE as int),
                        (next.pos - prev.pos) * (SCALE as int),
                        next.pos - prev.pos,
                    );
                    lemma_div_multiples_vanish(SCALE as int, next.pos - prev.pos);
                    assert((next.pos - prev.pos) * (SCALE as int) / (next.pos - prev.pos)
                        == SCALE);
                    assert((value - prev.pos) * (SCALE as int) >= 0) by (nonlinear_arith)
                        requires value >= prev.pos;
                }
                let frac: u32 = (((value - prev.pos) as u64 * SCALE as u64)
                    / (next.pos - prev.pos) as u64) as u32;
                proof {
                    assert(frac == spec_frac(value as int, prev.pos as int, next.pos as int));
                    assert(spec_color(s@, value as int)
                        == spec_blend(frac as int, prev.color, next.color));
                }
                return self.interpolate(frac, next.color, prev.color);
            }
            i += 1;
        }
        s[n - 1].color
    }

    /// Nearest-stop lookup: the color of the stop whose position is
    /// closest to `value`; of equally near stops the one earliest in
    /// ascending-position order wins.
    pub fn nearest_color(&self, value: u32) -> (r: [u8; 3])
        requires
            self.wf(),
            value <= SCALE,
        ensures
            r == self.stops@[spec_nearest_idx(self.stops@, value as int)].color,
            exists|j: int| 0 <= j < self.stops@.len() && r == self.stops@[j].color,
    {
        let s = &self.stops;
        let n = s.len();
        let mut best: usize = 0;
        let mut i: usize = 1;
        while i < n
            invariant
                wf_stops(s@),
                n == s@.len(),
                1 <= i <= n,
                best < i,
                spec_nearest_from(s@, value as int, i as int, best as int)
                    == spec_nearest_idx(s@, value as int),
            decreases n - i,
        {
            let di = dist_to(s[i].pos, value);
            let db = dist_to(s[best].pos, value);
            if di < db {
                best = i;
            }
            i += 1;
        }
        proof {
            assert(0 <= spec_nearest_idx(s@, value as int) < s@.len());
        }
        s[best].color
    }

    /// A gray ramp from black to white.
    pub fn monochrome() -> (r: Palette)
        ensures
            r.wf(),
            r.stops@.len() == 5,
    {
        Palette::new(vec![
            [0, 0, 0],
            [64, 64, 64],
            [128, 128, 128],
            [192, 192, 192],
            [255, 255, 255],
        ])
    }

    /// Deep water blues fading to black.
    pub fn ocean() -> (r: Palette)
        ensures
            r.wf(),
            r.stops@.len() == 5,
    {
        Palette::new(vec![
            [7, 3, 89],
            [9, 106, 183],
            [78, 168, 222],
            [144, 224, 239],
            [0, 0, 0],
        ])
    }

    /// Ember reds and hot yellows fading to black.
    pub fn dragon() -> (r: Palette)
        ensures
            r.wf(),
            r.stops@.len() == 5,
    {
        Palette::new(vec![
            [17, 9, 0],
            [128, 9, 0],
            [255, 150, 0],
            [255, 255, 102],
            [0, 0, 0],
        ])
    }

    /// A fire ramp from ember to hot yellow.
    pub fn fire() -> (r: Palette)
        ensures
            r.wf(),
            r.stops@.len() == 5,
    {
        Palette::new(vec![
            [17, 9, 0],
            [128, 9, 0],
            [255, 69, 0],
            [255, 150, 0],
            [255, 255, 102],
        ])
    }

    /// The familiar blue-and-gold ramp.
    pub fn wiki() -> (r: Palette)
        ensures
            r.wf(),
            r.stops@.len() == 12,
    {
        Palette::new(vec![
            [66, 30, 15],
            [25, 7, 26],
            [4, 4, 73],
            [104, 151, 199],
            [78, 9, 0],
            [134, 181, 229],
            [171, 206, 218],
            [241, 233, 191],
            [255, 170, 0],
            [204, 128, 0],
            [106, 52, 3],
            [0, 0, 0],
        ])
    }

    /// Pure red, green and blue.
    pub fn rgb() -> (r: Palette)
        ensures
            r.wf(),
            r.stops@.len() == 3,
    {
        Palette::new(vec![[255, 0, 0], [0, 255, 0], [0, 0, 255]])
    }

    /// Blend each channel of `lower` and `upper` independently at
    /// fraction `frac`, truncating to 8 bits.
    fn interpolate(&self, frac: u32, upper: [u8; 3], lower: [u8; 3]) -> (r: [u8; 3])
        requires
            frac <= SCALE,
        ensures
            r == spec_blend(frac as int, lower, upper),
    {
        let r0 = blend_one(frac, lower[0], upper[0]);
        let r1 = blend_one(frac, lower[1], upper[1]);
        let r2 = blend_one(frac, lower[2], upper[2]);
        let out: [u8; 3] = [r0, r1, r2];
        proof {
            assert(out =~= spec_blend(frac as int, lower, upper));
        }
        out
    }
}

/// Interpolated lookup at zero clamps to the first stop: zero is at or
/// below every position, so the lowest stop's color comes back
/// unchanged.
pub proof fn lemma_color_at_zero(s: Seq<GradientStop>)
    requires
        wf_stops(s),
    ensures
        spec_color(s, 0) == s[0].color,
{
}

/// Blending at fraction one is exactly the upper color.
proof fn lemma_blend_at_one(lower: [u8; 3], upper: [u8; 3])
    ensures
        spec_blend(SCALE as int, lower, upper) == upper,
{
    lemma_div_multiples_vanish(upper[0] as int, SCALE as int);
    lemma_div_multiples_vanish(upper[1] as int, SCALE as int);
    lemma_div_multiples_vanish(upper[2] as int, SCALE as int);
    assert(blend_channel(SCALE as int, lower[0] as int, upper[0] as int) == upper[0] as int);
    assert(blend_channel(SCALE as int, lower[1] as int, upper[1] as int) == upper[1] as int);
    assert(blend_channel(SCALE as int, lower[2] as int, upper[2] as int) == upper[2] as int);
    assert(spec_blend(SCALE as int, lower, upper) =~= upper);
}

/// A value above every stop exhausts the scan and clamps to the last
/// stop.
proof fn lemma_scan_past(s: Seq<GradientStop>, v: int, i: int)
    requires
        sorted_stops(s),
        s.len() >= 1,
        0 <= i < s.len(),
        s[s.len() - 1].pos < v,
    ensures
        spec_color_scan(s, v, i) == s[s.len() - 1].color,
    decreases s.len() - i,
{
    if i + 1 < s.len() {
        assert(s[i + 1].pos <= s[s.len() - 1].pos);
        assert(!brackets(s, i, v));
        lemma_scan_past(s, v, i + 1);
    }
}

/// When only the last stop sits at the top of the unit interval, the
/// scan at the top value blends fully into the last stop's color.
proof fn lemma_scan_top(s: Seq<GradientStop>, i: int)
    requires
        wf_stops(s),
        0 <= i <= s.len() - 2,
        s[s.len() - 2].pos < SCALE,
        s[s.len() - 1].pos == SCALE,
    ensures
        spec_color_scan(s, SCALE as int, i) == s[s.len() - 1].color,
    decreases s.len() - i,
{
    let n = s.len() as int;
    let v = SCALE as int;
    if i < n - 2 {
        assert(s[i + 1].pos <= s[n - 2].pos);
        assert(!brackets(s, i, v));
        lemma_scan_top(s, i + 1);
    } else {
        assert(brackets(s, i, v));
        let lo = s[i].pos as int;
        let d = v - lo;
        lemma_div_multiples_vanish(SCALE as int, d);
        assert((v - lo) * (SCALE as int) == d * (SCALE as int));
        assert(spec_frac(v, lo, v) == SCALE);
        lemma_blend_at_one(s[i].color, s[n - 1].color);
    }
}

/// Interpolated lookup at one clamps to the last stop, provided the
/// top position is held by the last stop alone (of several stops at
/// the top position the scan blends into the first, whose color may
/// differ).
pub proof fn lemma_color_at_one(s: Seq<GradientStop>)
    requires
        wf_stops(s),
        s[s.len() - 1].pos < SCALE || s[s.len() - 2].pos < s[s.len() - 1].pos,
    ensures
        spec_color(s, SCALE as int) == s[s.len() - 1].color,
{
    let n = s.len() as int;
    if SCALE <= s[0].pos {
        assert(s[0].pos <= s[n - 2].pos <= s[n - 1].pos <= SCALE);
        assert(false);
    } else if s[n - 1].pos < SCALE {
        lemma_scan_past(s, SCALE as int, 0);
    } else {
        lemma_scan_top(s, 0);
    }
}

/// The nearest scan from `i` with current best `best` lands on the
/// first index of least distance, given `best` is that of the prefix.
proof fn lemma_nearest_from_minimal(s: Seq<GradientStop>, v: int, i: int, best: int)
    requires
        1 <= i <= s.len(),
        0 <= best < i,
        forall|j: int| 0 <= j < i ==> idist(s[best].pos as int, v) <= idist(#[trigger] s[j].pos as int, v),
        forall|j: int| 0 <= j < best ==> idist(#[trigger] s[j].pos as int, v) > idist(s[best].pos as int, v),
    ensures
        0 <= spec_nearest_from(s, v, i, best) < s.len(),
        forall|j: int|
            0 <= j < s.len() ==> idist(s[spec_nearest_from(s, v, i, best)].pos as int, v) <= idist(
                #[trigger] s[j].pos as int,
                v,
            ),
        forall|j: int|
            0 <= j < spec_nearest_from(s, v, i, best) ==> idist(#[trigger] s[j].pos as int, v)
                > idist(s[spec_nearest_from(s, v, i, best)].pos as int, v),
    decreases s.len() - i,
{
    if i < s.len() {
        if idist(s[i].pos as int, v) < idist(s[best].pos as int, v) {
            lemma_nearest_from_minimal(s, v, i + 1, i);
        } else {
            lemma_nearest_from_minimal(s, v, i + 1, best);
        }
    }
}

/// The nearest stop really is nearest: no stop is strictly closer, and
/// every earlier stop is strictly farther (the first of equally near
/// stops wins).
pub proof fn lemma_nearest_minimal(s: Seq<GradientStop>, v: int)
    requires
        s.len() >= 1,
    ensures
        0 <= spec_nearest_idx(s, v) < s.len(),
        forall|j: int|
            0 <= j < s.len() ==> idist(s[spec_nearest_idx(s, v)].pos as int, v) <= idist(
                #[trigger] s[j].pos as int,
                v,
            ),
        forall|j: int|
            0 <= j < spec_nearest_idx(s, v) ==> idist(#[trigger] s[j].pos as int, v) > idist(
                s[spec_nearest_idx(s, v)].pos as int,
                v,
            ),
{
    lemma_nearest_from_minimal(s, v, 1, 0);
}

/// Mirroring a stop twice gives the stop back.
proof fn lemma_mirror_involution(st: GradientStop)
    requires
        stop_in_range(st),
    ensures
        mirror_stop(mirror_stop(st)) == st,
{
}

/// A stop occurs in a sequence as often as its mirror occurs in the
/// mirrored sequence.
proof fn lemma_mirror_count(s: Seq<GradientStop>, x: GradientStop)
    requires
        forall|i: int| 0 <= i < s.len() ==> stop_in_range(#[trigger] s[i]),
        stop_in_range(x),
    ensures
        mirror_seq(s).to_multiset().count(mirror_stop(x)) == s.to_multiset().count(x),
    decreases s.len(),
{
    broadcast use vstd::multiset::group_multiset_axioms;

    if s.len() == 0 {
        to_multiset_contains(s, x);
        to_multiset_contains(mirror_seq(s), mirror_stop(x));
        assert(mirror_seq(s).len() == 0);
    } else {
        let s0 = s.drop_last();
        let last = s.last();
        lemma_mirror_count(s0, x);
        assert(s =~= s0.push(last));
        assert(mirror_seq(s) =~= mirror_seq(s0).push(mirror_stop(last)));
        to_multiset_build(s0, last);
        to_multiset_build(mirror_seq(s0), mirror_stop(last));
        if last == x {
            assert(mirror_stop(last) == mirror_stop(x));
        } else {
            lemma_mirror_involution(last);
            lemma_mirror_involution(x);
            assert(mirror_stop(last) != mirror_stop(x));
        }
    }
}

/// A stop outside the unit interval occurs in no in-range sequence.
proof fn lemma_count_out_of_range(s: Seq<GradientStop>, x: GradientStop)
    requires
        forall|i: int| 0 <= i < s.len() ==> stop_in_range(#[trigger] s[i]),
        !stop_in_range(x),
    ensures
        s.to_multiset().count(x) == 0,
{
    broadcast use vstd::multiset::group_multiset_axioms;

    to_multiset_contains(s, x);
    assert(!s.contains(x));
}

/// Inverting twice is the identity: a palette whose stops are a sorted
/// rearrangement of the mirrored stops of a palette that is itself a
/// sorted rearrangement of the mirrored stops of `a` holds exactly the
/// stops of `a` — every position is mirrored twice and every color is
/// kept.
pub proof fn lemma_inverse_involution(
    a: Seq<GradientStop>,
    b: Seq<GradientStop>,
    c: Seq<GradientStop>,
)
    requires
        forall|i: int| 0 <= i < a.len() ==> stop_in_range(#[trigger] a[i]),
        b.to_multiset() == mirror_seq(a).to_multiset(),
        c.to_multiset() == mirror_seq(b).to_multiset(),
    ensures
        c.to_multiset() == a.to_multiset(),
{
    broadcast use vstd::multiset::group_multiset_axioms;

    assert forall|i: int| 0 <= i < b.len() implies stop_in_range(#[trigger] b[i]) by {
        to_multiset_contains(b, b[i]);
        assert(b.contains(b[i]));
        to_multiset_contains(mirror_seq(a), b[i]);
        assert(mirror_seq(a).contains(b[i]));
        let j = choose|j: int| 0 <= j < mirror_seq(a).len() && mirror_seq(a)[j] == b[i];
        assert(stop_in_range(a[j]));
    }
    assert forall|x: GradientStop|
        #[trigger] c.to_multiset().count(x) == a.to_multiset().count(x) by {
        if stop_in_range(x) {
            let y = mirror_stop(x);
            lemma_mirror_involution(x);
            lemma_mirror_count(b, y);
            lemma_mirror_count(a, x);
        } else {
            lemma_count_out_of_range(a, x);
            assert forall|i: int|
                0 <= i < mirror_seq(b).len()
                    implies stop_in_range(#[trigger] mirror_seq(b)[i]) by {
                assert(mirror_seq(b)[i] == mirror_stop(b[i]));
            }
            lemma_count_out_of_range(mirror_seq(b), x);
        }
    }
    assert(c.to_multiset() =~= a.to_multiset());
}

/// Distance from a stop position to a lookup value.
fn dist_to(pos: u32, value: u32) -> (r: u32)
    ensures
        r == idist(pos as int, value as int),
{
    if pos >= value {
        pos - value
    } else {
        value - pos
    }
}

/// One blended channel: `(1-frac)*lo + frac*hi` in fixed point,
/// truncated to an integer channel value.
fn blend_one(frac: u32, lo: u8, hi: u8) -> (r: u8)
    requires
        frac <= SCALE,
    ensures
        r == blend_channel(frac as int, lo as int, hi as int),
{
    proof {
        lemma_mul_upper_bound((SCALE - frac) as int, SCALE as int, lo as int, 255);
        lemma_mul_upper_bound(frac as int, SCALE as int, hi as int, 255);
    }
    let num: u64 = (SCALE - frac) as u64 * lo as u64 + frac as u64 * hi as u64;
    proof {
        assert((SCALE as int - frac) * lo + frac * (hi as int) <= (SCALE as int) * 255)
            by (nonlinear_arith)
            requires frac <= SCALE, lo <= 255, hi <= 255;
        lemma_multiply_divide_le(num as int, SCALE as int, 255);
        lemma_div_pos_is_pos(num as int, SCALE as int);
    }
    let q: u64 = num / SCALE as u64;
    q as u8
}

} // verus!
