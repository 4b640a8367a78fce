//! What the three battery charts show: charge over time, drain by charge
//! band, and predicted against realized runtime, and where it lands on the
//! canvas.

use crate::estimate::{duration_text, Estimate};
use crate::power::PowerState;
use crate::quantity::{
    Quantity, EIGHT_BITS, EIGHT_HOURS_BITS, FORTY_BITS, HALF_BITS, ONE_BITS,
};
use crate::sample::{Sample, BANDS};
use crate::scoring::Checkpoint;
use crate::session::SESSION_GAP_SECS;
use crate::text::{chars_of, joined, push_decimal};
use vstd::prelude::*;
use vstd::string::StringExecFns;

verus! {

use crate::binary::{
    difference, greater, lesser, product, quotient, signed_whole, sum, whole, whole_above,
    whole_near,
};

/// 0.25: how much of the charge chart's window is left for the projection.
pub const QUARTER_BITS: u64 = 0x3FD0_0000_0000_0000;

/// 1.25: how far the drain chart reaches above the greatest rate.
pub const FIVE_QUARTERS_BITS: u64 = 0x3FF4_0000_0000_0000;

/// 1.15: how far the runtime chart reaches above the longest time.
pub const HEADROOM_BITS: u64 = 0x3FF2_6666_6666_6666;

/// 0.62: how much of its slot a bar takes up.
pub const BAR_BITS: u64 = 0x3FE3_D70A_3D70_A3D7;

// Colours.

/// A colour, each channel from 0 to 255.
#[derive(Clone, Copy, Debug, PartialEq, Eq, Structural)]
pub struct Rgb {
    pub red: u8,
    pub green: u8,
    pub blue: u8,
}

/// The value of a hexadecimal digit.
pub open spec fn hex_value(c: char) -> Option<nat> {
    if '0' <= c <= '9' {
        Some((c as int - '0' as int) as nat)
    } else if 'a' <= c <= 'f' {
        Some((c as int - 'a' as int + 10) as nat)
    } else if 'A' <= c <= 'F' {
        Some((c as int - 'A' as int + 10) as nat)
    } else {
        None
    }
}

/// Whether `s` is a colour written `#RRGGBB`.
pub open spec fn is_colour(s: Seq<char>) -> bool {
    &&& s.len() == 7
    &&& s[0] == '#'
    &&& forall|i: int| 1 <= i < 7 ==> hex_value(#[trigger] s[i]) is Some
}

/// The channel whose two digits stand at position `i`.
pub open spec fn channel_at(s: Seq<char>, i: int) -> nat {
    hex_value(s[i])->0 * 16 + hex_value(s[i + 1])->0
}

/// The colour that `s` writes.
pub open spec fn colour_of(s: Seq<char>) -> Rgb {
    Rgb {
        red: channel_at(s, 1) as u8,
        green: channel_at(s, 3) as u8,
        blue: channel_at(s, 5) as u8,
    }
}

fn hex_digit(c: char) -> (r: Option<u8>)
    ensures
        match r {
            Some(v) => hex_value(c) == Some(v as nat) && v < 16,
            None => hex_value(c) is None,
        },
{
    if '0' <= c && c <= '9' {
        Some(c as u8 - 48)
    } else if 'a' <= c && c <= 'f' {
        Some(c as u8 - 87)
    } else if 'A' <= c && c <= 'F' {
        Some(c as u8 - 55)
    } else {
        None
    }
}

/// Whether `s` is a colour written `#RRGGBB`.
pub fn is_hex(s: &str) -> (r: bool)
    ensures
        r == is_colour(s@),
{
    let c = chars_of(s);
    if c.len() != 7 || c[0] != '#' {
        return false;
    }
    let mut i: usize = 1;
    while i < 7
        invariant
            1 <= i <= 7,
            c.len() == 7,
            c@ == s@,
            forall|j: int| 1 <= j < i ==> hex_value(#[trigger] s@[j]) is Some,
        decreases 7 - i,
    {
        if hex_digit(c[i]).is_none() {
            return false;
        }
        i += 1;
    }
    true
}

fn channel(high: char, low: char) -> (r: u8)
    requires
        hex_value(high) is Some,
        hex_value(low) is Some,
    ensures
        r == hex_value(high)->0 * 16 + hex_value(low)->0,
{
    match (hex_digit(high), hex_digit(low)) {
        (Some(h), Some(l)) => h * 16 + l,
        _ => 0,
    }
}

impl Rgb {
    /// `#RRGGBB`; anything else is the colour that `fallback` writes.
    pub fn from_hex(hex: &str, fallback: &str) -> (r: Rgb)
        requires
            is_colour(fallback@),
        ensures
            r == colour_of(
                if is_colour(hex@) {
                    hex@
                } else {
                    fallback@
                },
            ),
    {
        let c = if is_hex(hex) {
            chars_of(hex)
        } else {
            chars_of(fallback)
        };
        Rgb {
            red: channel(c[1], c[2]),
            green: channel(c[3], c[4]),
            blue: channel(c[5], c[6]),
        }
    }
}

/// Which of the palette's colours a state is drawn in.
#[derive(Clone, Copy, Debug, PartialEq, Eq, Structural)]
pub enum Tint {
    Accent,
    Charge,
    /// The foreground, dimmed.
    Dimmed,
}

/// Which of the palette's colours a state is drawn in.
pub fn tint(state: PowerState) -> (r: Tint)
    ensures
        r == match state {
            PowerState::OnBattery => Tint::Accent,
            PowerState::Charging => Tint::Charge,
            PowerState::PluggedIn => Tint::Dimmed,
        },
{
    match state {
        PowerState::OnBattery => Tint::Accent,
        PowerState::Charging => Tint::Charge,
        PowerState::PluggedIn => Tint::Dimmed,
    }
}

// Where things land on the canvas.

/// A plot rectangle with linear axes.
#[derive(Clone, Copy, Debug, PartialEq, Eq, Structural)]
pub struct Plot {
    pub x0: Quantity,
    pub y0: Quantity,
    pub width: Quantity,
    pub height: Quantity,
    pub t_min: Quantity,
    pub t_max: Quantity,
    pub v_min: Quantity,
    pub v_max: Quantity,
}

/// The space left of the plot.
pub const MARGIN_LEFT: u64 = 44;

/// The space right of the plot.
pub const MARGIN_RIGHT: u64 = 14;

/// The space above the plot.
pub const MARGIN_TOP: u64 = 12;

/// The space below the plot.
pub const MARGIN_BOTTOM: u64 = 24;

/// What is left of a length of the canvas between two margins, at least one.
pub open spec fn between_margins(length: i32, before: u64, after: u64) -> Quantity {
    greater(
        difference(
            difference(signed_whole(length as int), whole(before as nat)),
            whole(after as nat),
        ),
        Quantity { bits: ONE_BITS },
    )
}

/// The end of an axis that starts at `from`: as it is given, but at least one
/// further on.
pub open spec fn axis_end(from: Quantity, to: Quantity) -> Quantity {
    greater(to, sum(from, Quantity { bits: ONE_BITS }))
}

impl Plot {
    /// The plot on a canvas of `width` by `height`, with the axes from and to
    /// the given ends.
    pub fn new(width: i32, height: i32, t: (Quantity, Quantity), v: (Quantity, Quantity)) -> (r:
        Plot)
        ensures
            r == (Plot {
                x0: whole(MARGIN_LEFT as nat),
                y0: whole(MARGIN_TOP as nat),
                width: between_margins(width, MARGIN_LEFT, MARGIN_RIGHT),
                height: between_margins(height, MARGIN_TOP, MARGIN_BOTTOM),
                t_min: t.0,
                t_max: axis_end(t.0, t.1),
                v_min: v.0,
                v_max: axis_end(v.0, v.1),
            }),
            crate::exact::is_at(r.x0, 44),
            crate::exact::is_at(r.y0, 12),
            crate::exact::is_at(r.width, crate::canvas::most(width - 58, 1)),
            crate::exact::is_at(r.height, crate::canvas::most(height - 36, 1)),
    {
        proof {
            crate::exact::wholes_are_at(44);
            crate::exact::wholes_are_at(12);
            crate::canvas::plots_lie_between_the_margins(width, height);
        }
        let one = Quantity { bits: ONE_BITS };
        let left = Quantity::of(MARGIN_LEFT);
        let right = Quantity::of(MARGIN_RIGHT);
        let top = Quantity::of(MARGIN_TOP);
        let bottom = Quantity::of(MARGIN_BOTTOM);
        Plot {
            x0: left,
            y0: top,
            width: Quantity::of_signed(width as i64).minus(left).minus(right).max(one),
            height: Quantity::of_signed(height as i64).minus(top).minus(bottom).max(one),
            t_min: t.0,
            t_max: t.1.max(t.0.plus(one)),
            v_min: v.0,
            v_max: v.1.max(v.0.plus(one)),
        }
    }

    /// Where a moment lands, from the left.
    pub open spec fn across(self, t: Quantity) -> Quantity {
        sum(
            self.x0,
            product(
                quotient(difference(t, self.t_min), difference(self.t_max, self.t_min)),
                self.width,
            ),
        )
    }

    /// Where a moment lands, from the left.
    pub fn x(&self, t: Quantity) -> (r: Quantity)
        ensures
            r == self.across(t),
    {
        self.x0.plus(t.minus(self.t_min).over(self.t_max.minus(self.t_min)).times(self.width))
    }

    /// Where a value lands, from the top.
    pub open spec fn down(self, v: Quantity) -> Quantity {
        difference(
            sum(self.y0, self.height),
            product(
                quotient(difference(v, self.v_min), difference(self.v_max, self.v_min)),
                self.height,
            ),
        )
    }

    /// Where a value lands, from the top.
    pub fn y(&self, v: Quantity) -> (r: Quantity)
        ensures
            r == self.down(v),
    {
        self.y0.plus(self.height).minus(
            v.minus(self.v_min).over(self.v_max.minus(self.v_min)).times(self.height),
        )
    }

    /// The lower edge.
    pub fn bottom(&self) -> (r: Quantity)
        ensures
            r == sum(self.y0, self.height),
    {
        self.y0.plus(self.height)
    }
}

/// The middle of the pixel that a coordinate falls into.
pub fn pixel(c: Quantity) -> (r: Quantity)
    ensures
        r == sum(whole_near(c), Quantity { bits: HALF_BITS }),
{
    c.rounded().plus(Quantity { bits: HALF_BITS })
}

// Lines and labels along an axis.

/// 2 to the power of 53: from here on a second or a percent more can be lost
/// in rounding, and marks along an axis would never reach its end.
pub const REACH_BITS: u64 = 0x4340_0000_0000_0000;

/// Minus 2 to the power of 53.
pub const MINUS_REACH_BITS: u64 = 0xC340_0000_0000_0000;

/// The `k`-th mark along an axis: the first one, and `k` times a step further.
pub open spec fn mark(first: Quantity, step: Quantity, k: nat) -> Quantity
    decreases k,
{
    if k == 0 {
        first
    } else {
        sum(mark(first, step, (k - 1) as nat), step)
    }
}

/// Whether marks that begin at `first` get to the end of an axis.
pub open spec fn gets_to(first: Quantity, end: Quantity) -> bool {
    ||| !first.at_most(end)
    ||| (Quantity { bits: MINUS_REACH_BITS }).at_most(first) && end.less(
        Quantity { bits: REACH_BITS },
    )
}

/// Whether marks that begin at `first` get to the end of an axis.
pub fn can_be_marked(first: Quantity, end: Quantity) -> (r: bool)
    ensures
        r == gets_to(first, end),
{
    !first.is_at_most(end) || (Quantity { bits: MINUS_REACH_BITS }.is_at_most(first)
        && end.is_below(REACH_BITS))
}

/// Whether these are the marks along an axis, up to its end.
pub open spec fn are_marks(
    marks: Seq<Quantity>,
    first: Quantity,
    step: Quantity,
    end: Quantity,
) -> bool {
    &&& forall|i: int|
        0 <= i < marks.len() ==> #[trigger] marks[i] == mark(first, step, i as nat)
            && marks[i].at_most(end)
    &&& !mark(first, step, marks.len()).at_most(end)
}

/// A step of at least one leads on.
proof fn marks_lead_on(v: Quantity, step: u64)
    requires
        (Quantity { bits: MINUS_REACH_BITS }).at_most(v),
        v.less(Quantity { bits: REACH_BITS }),
        step > 0,
    ensures
        v.less(sum(v, whole(step as nat))),
{
    let one = crate::binary::one_in_units();
    let s = whole(step as nat);
    let p = step as nat * one;
    vstd::arithmetic::power2::lemma2_to64();
    vstd::arithmetic::power2::lemma2_to64_rest();
    crate::precision::scaled_powers(0, 64);
    assert(crate::precision::power_units(0) == one);
    assert(one * 1 <= p <= crate::precision::power_units(64) * 1) by (nonlinear_arith)
        requires
            p == step as nat * one,
            1 <= step < 0x1_0000_0000_0000_0000,
            crate::precision::power_units(64) == 0x1_0000_0000_0000_0000 * one,
    ;
    let far = crate::precision::nearest_between(p, 1, 0, 64);
    assert(crate::binary::size(s) >= one);
    let m = v.magnitude() as nat;
    let exact = crate::binary::value(v) + crate::binary::value(s);
    if !crate::binary::is_negative(v) {
        spaces_are_small(m);
        crate::binary::spacing_is_the_step(m);
        crate::binary::values_stay(m + 1);
        crate::binary::nearest_exists(exact as nat, 1);
        crate::binary::nearest_keeps_order(
            crate::binary::units(m + 1),
            exact as nat,
            1,
            m + 1,
            crate::binary::nearest(exact as nat, 1),
        );
    } else {
        if m > 0 {
            spaces_are_small((m - 1) as nat);
            crate::binary::spacing_is_the_step((m - 1) as nat);
        }
        if exact > 0 {
            crate::binary::values_stay(1);
            crate::binary::nearest_exists(exact as nat, 1);
            crate::binary::nearest_keeps_order(
                1,
                exact as nat,
                1,
                1,
                crate::binary::nearest(exact as nat, 1),
            );
        } else if exact < 0 {
            let back = (-exact) as nat;
            let less = (m - 1) as nat;
            crate::binary::values_stay(less);
            crate::binary::nearest_exists(back, 1);
            crate::binary::nearest_keeps_order(
                back,
                crate::binary::units(less),
                1,
                crate::binary::nearest(back, 1),
                less,
            );
        }
    }
}

proof fn spaces_are_small(m: nat)
    requires
        m < REACH_BITS,
    ensures
        crate::binary::spacing(m) <= crate::binary::one_in_units(),
{
    let span = crate::binary::SPAN as nat;
    vstd::arithmetic::power2::lemma2_to64();
    if m >= span {
        let k = (m / span - 1) as nat;
        assert(1 <= m / span <= 1075) by (nonlinear_arith)
            requires
                span <= m < 1076 * span,
                span > 0,
        ;
        crate::binary::powers_within(k as u32, crate::binary::UNIT_POWER);
    } else {
        vstd::arithmetic::power2::lemma_pow2_pos(crate::binary::UNIT_POWER as nat);
    }
}

fn marks_along(first: Quantity, step: u64, end: Quantity) -> (r: Vec<Quantity>)
    requires
        step > 0,
        gets_to(first, end),
    ensures
        are_marks(r@, first, whole(step as nat), end),
{
    let by = Quantity::of(step);
    let mut out: Vec<Quantity> = Vec::new();
    let mut v = first;
    while v.is_at_most(end)
        invariant
            step > 0,
            gets_to(first, end),
            by == whole(step as nat),
            v == mark(first, by, out@.len()),
            v.at_most(end) ==> first.at_most(v),
            forall|i: int|
                0 <= i < out@.len() ==> #[trigger] out@[i] == mark(first, by, i as nat)
                    && out@[i].at_most(end),
        decreases
                (if v.at_most(end) {
                    end.rank() - v.rank() + 1
                } else {
                    0
                }),
    {
        proof {
            marks_lead_on(v, step);
        }
        out.push(v);
        v = v.plus(by);
    }
    out
}

/// The values at which a line is drawn across a chart: every `step` from zero
/// up to the top.
pub fn grid_values(top: Quantity, step: u8) -> (r: Vec<Quantity>)
    requires
        step > 0,
        gets_to(Quantity { bits: 0 }, top),
    ensures
        are_marks(r@, Quantity { bits: 0 }, whole(step as nat), top),
{
    marks_along(Quantity::zero(), step as u64, top)
}

/// The moments at which a chart's time axis is labelled: every `step` seconds
/// from the first round one up to the end of the axis.
pub fn label_times(plot: &Plot, first: Quantity, step: u64) -> (r: Vec<Quantity>)
    requires
        step > 0,
        gets_to(first, plot.t_max),
    ensures
        are_marks(r@, first, whole(step as nat), plot.t_max),
{
    marks_along(first, step, plot.t_max)
}

/// The lines across a chart stand at the multiples of their step.
pub proof fn grid_lines_stand_at_multiples(step: u8, k: nat)
    requires
        k * step < 2 * crate::binary::SPAN,
    ensures
        mark(Quantity { bits: 0 }, whole(step as nat), k) == whole(k * step as nat),
    decreases k,
{
    if k == 0 {
        crate::binary::nothing_is_zero();
        assert(0 * step as nat == 0);
    } else {
        let before = (k - 1) as nat;
        assert(before * step as nat + step as nat == k * step as nat) by (nonlinear_arith)
            requires
                before == k - 1,
        ;
        grid_lines_stand_at_multiples(step, before);
        crate::binary::small_sums_are_exact(before * step as nat, step as nat);
    }
}

/// Whether so many points make a line; a chart with fewer says why it is
/// empty.
pub fn has_line(points: usize) -> (r: bool)
    ensures
        r == (points >= 2),
{
    points >= 2
}

// Charge over time.

/// The moment `range` seconds before `now`.
pub open spec fn window_start(now: u64, range: u64) -> Quantity {
    difference(whole(now as nat), whole(range as nat))
}

/// Whether a sample lies in a window of `range` seconds before `now`, or in
/// the silence before it that a session may span.
pub open spec fn in_window(x: Sample, now: u64, range: u64) -> bool {
    difference(window_start(now, range), whole(SESSION_GAP_SECS as nat)).at_most(
        whole(x.t as nat),
    )
}

/// The span of the charge chart: `range` seconds before `now`, and a quarter
/// of that after it where there is a projection.
pub open spec fn charge_span_of(now: u64, range: u64, projected: bool) -> (Quantity, Quantity) {
    (
        window_start(now, range),
        sum(
            whole(now as nat),
            if projected {
                product(whole(range as nat), Quantity { bits: QUARTER_BITS })
            } else {
                Quantity { bits: 0 }
            },
        ),
    )
}

/// The span of the charge chart. A quarter of the window is left for the
/// projection when there is one.
pub fn charge_span(now: u64, range: u64, estimate: &Estimate) -> (r: (Quantity, Quantity))
    ensures
        r == charge_span_of(now, range, estimate.minutes is Some),
{
    let ahead = if estimate.minutes.is_some() {
        Quantity::of(range).times(Quantity { bits: QUARTER_BITS })
    } else {
        Quantity::zero()
    };
    (Quantity::of(now).minus(Quantity::of(range)), Quantity::of(now).plus(ahead))
}

/// The samples in a window of `range` seconds before `now`.
pub open spec fn windowed(s: Seq<Sample>, now: u64, range: u64) -> Seq<Sample>
    decreases s.len(),
{
    if s.len() == 0 {
        Seq::empty()
    } else if in_window(s.last(), now, range) {
        windowed(s.drop_last(), now, range).push(s.last())
    } else {
        windowed(s.drop_last(), now, range)
    }
}

/// The samples in a window of `range` seconds before `now`.
pub fn charge_samples(samples: &[Sample], now: u64, range: u64) -> (r: Vec<Sample>)
    ensures
        r@ == windowed(samples@, now, range),
{
    let n = samples.len();
    let from = Quantity::of(now).minus(Quantity::of(range)).minus(Quantity::of(SESSION_GAP_SECS));
    let mut out: Vec<Sample> = Vec::new();
    let mut i: usize = 0;
    assert(samples@.take(0) =~= Seq::<Sample>::empty());
    while i < n
        invariant
            i <= n,
            n == samples@.len(),
            from == difference(window_start(now, range), whole(SESSION_GAP_SECS as nat)),
            out@ == windowed(samples@.take(i as int), now, range),
        decreases n - i,
    {
        assert(samples@.take(i + 1).drop_last() =~= samples@.take(i as int));
        assert(samples@.take(i + 1).last() == samples@[i as int]);
        if from.is_at_most(Quantity::of(samples[i].t)) {
            out.push(samples[i]);
        }
        i += 1;
    }
    assert(samples@.take(n as int) =~= samples@);
    out
}

/// Whether two neighbouring moments are joined by a line: the later one comes
/// no longer after the earlier than a session's silence may last.
pub open spec fn is_joined(from: u64, to: u64) -> bool {
    from <= to && to - from <= SESSION_GAP_SECS
}

fn are_joined(from: u64, to: u64) -> (r: bool)
    ensures
        r == is_joined(from, to),
{
    from <= to && to - from <= SESSION_GAP_SECS
}

/// How the stretch between two neighbouring samples is drawn.
#[derive(Clone, Copy, Debug, PartialEq, Eq, Structural)]
pub struct Stretch {
    /// Whether there is a line at all.
    pub line: bool,
    /// Whether the adapter's time is shaded behind it.
    pub shaded: bool,
    pub tint: Tint,
}

/// How the stretch from `a` to `b` is drawn.
pub open spec fn stretch_of(a: Sample, b: Sample) -> Stretch {
    Stretch {
        line: is_joined(a.t, b.t),
        shaded: is_joined(a.t, b.t) && a.state != PowerState::OnBattery,
        tint: match a.state {
            PowerState::OnBattery => Tint::Accent,
            PowerState::Charging => Tint::Charge,
            PowerState::PluggedIn => Tint::Dimmed,
        },
    }
}

/// How the stretch from each sample to the next is drawn.
pub fn stretches(samples: &Vec<Sample>) -> (r: Vec<Stretch>)
    ensures
        r.len() == if samples.len() == 0 {
            0
        } else {
            samples.len() - 1
        },
        forall|i: int|
            0 <= i < r.len() ==> #[trigger] r[i] == stretch_of(samples[i], samples[i + 1]),
{
    let mut out: Vec<Stretch> = Vec::new();
    if samples.len() == 0 {
        return out;
    }
    let mut i: usize = 1;
    while i < samples.len()
        invariant
            1 <= i <= samples.len(),
            out.len() == i - 1,
            forall|j: int|
                0 <= j < i - 1 ==> #[trigger] out[j] == stretch_of(samples[j], samples[j + 1]),
        decreases samples.len() - i,
    {
        let a = samples[i - 1];
        let line = are_joined(a.t, samples[i].t);
        out.push(
            Stretch { line, shaded: line && a.state != PowerState::OnBattery, tint: tint(a.state) },
        );
        i += 1;
    }
    out
}

/// Inside a session every stretch has a line.
pub proof fn sessions_are_drawn_through(s: Seq<Sample>, i: int)
    requires
        0 < i < s.len(),
        !crate::session::opens(s, i),
        s[i - 1].t <= s[i].t,
    ensures
        stretch_of(s[i - 1], s[i]).line,
{
}

/// The charge that the projection heads for.
fn projection_target(state: PowerState) -> (r: u8)
    ensures
        r == if state == PowerState::Charging {
            100int
        } else {
            0int
        },
{
    match state {
        PowerState::Charging => 100,
        _ => 0,
    }
}

/// Where the projection from `now` ends on a chart that ends at `t_max`: the
/// moment and the charge there. A projection that would leave the chart is
/// cut, keeping its slope.
pub open spec fn projection_end(
    now: u64,
    percent: u8,
    state: PowerState,
    minutes: u32,
    t_max: Quantity,
) -> (Quantity, Quantity) {
    let start = whole(now as nat);
    let level = whole(percent as nat);
    let target = whole(
        if state == PowerState::Charging {
            100
        } else {
            0
        },
    );
    let end = sum(start, product(whole(minutes as nat), whole(60)));
    let t = lesser(end, t_max);
    (
        t,
        sum(
            level,
            quotient(
                product(difference(target, level), difference(t, start)),
                greater(difference(end, start), Quantity { bits: ONE_BITS }),
            ),
        ),
    )
}

/// Where the projection from `now` ends on a chart that ends at `t_max`.
pub fn projection(
    now: u64,
    percent: u8,
    state: PowerState,
    minutes: u32,
    t_max: Quantity,
) -> (r: (Quantity, Quantity))
    ensures
        r == projection_end(now, percent, state, minutes, t_max),
{
    let start = Quantity::of(now);
    let level = Quantity::of(percent as u64);
    let target = Quantity::of(projection_target(state) as u64);
    let end = start.plus(Quantity::of(minutes as u64).times(Quantity::of(60)));
    let t = end.min(t_max);
    let slope = target.minus(level).times(t.minus(start)).over(
        end.minus(start).max(Quantity { bits: ONE_BITS }),
    );
    (t, level.plus(slope))
}

/// The label of the projection.
pub fn projection_label(state: PowerState, minutes: u32) -> (r: String)
    ensures
        r@ == if state == PowerState::Charging {
            "full in "@ + crate::estimate::duration(minutes as nat)
        } else {
            crate::estimate::duration(minutes as nat) + " left"@
        },
{
    match state {
        PowerState::Charging => joined("full in ", duration_text(minutes).as_str()),
        _ => joined(duration_text(minutes).as_str(), " left"),
    }
}

// The time axis.

/// The distances between two time labels, in seconds, nearest first.
pub open spec fn axis_steps() -> Seq<u64> {
    seq![900u64, 1800u64, 3600u64, 7200u64, 10800u64, 21600u64, 43200u64, 86400u64]
}

/// Whether a distance cuts an axis of `span` seconds into at most eight.
pub open spec fn cuts_few(span: Quantity, step: u64) -> bool {
    quotient(span, whole(step as nat)).at_most(Quantity { bits: EIGHT_BITS })
}

/// The distance between two time labels on an axis of `span` seconds: the
/// first that cuts it into at most eight, or the last.
pub fn axis_step(span: Quantity) -> (r: u64)
    ensures
        exists|k: int|
            {
                &&& 0 <= k < 8
                &&& r == #[trigger] axis_steps()[k]
                &&& forall|j: int| 0 <= j < k ==> !cuts_few(span, #[trigger] axis_steps()[j])
                &&& k < 7 ==> cuts_few(span, r)
            },
{
    let steps: [u64; 8] = [900, 1800, 3600, 7200, 10800, 21600, 43200, 86400];
    assert(steps@ =~= axis_steps());
    let mut i: usize = 0;
    while i < 7
        invariant
            i <= 7,
            steps@ == axis_steps(),
            forall|j: int| 0 <= j < i ==> !cuts_few(span, #[trigger] axis_steps()[j]),
        decreases 7 - i,
    {
        if span.over(Quantity::of(steps[i])).is_at_most(Quantity { bits: EIGHT_BITS }) {
            assert(axis_steps()[i as int] == steps[i as int]);
            return steps[i];
        }
        i += 1;
    }
    assert(axis_steps()[7] == 86400u64);
    86400
}

/// The first time label of an axis that starts at `t_min`: on a round local
/// time, `offset` seconds ahead of universal time.
pub fn first_label(t_min: Quantity, offset: Quantity, step: u64) -> (r: Quantity)
    ensures
        r == difference(
            product(
                whole_above(quotient(sum(t_min, offset), whole(step as nat))),
                whole(step as nat),
            ),
            offset,
        ),
        forall|from: int, ahead: int|
            crate::exact::is_at(t_min, from) && crate::exact::is_at(offset, ahead) && 0 <= from
                + ahead < 0x4_0000_0000_0000 && -0x4_0000_0000_0000 < ahead < 0x4_0000_0000_0000
                && 0 < step < 0x4_0000_0000_0000 ==> #[trigger] crate::roofs::is_first_label(
                r,
                from,
                ahead,
                step as int,
            ),
{
    proof {
        assert forall|from: int, ahead: int|
            crate::exact::is_at(t_min, from) && crate::exact::is_at(offset, ahead) && 0 <= from
                + ahead < 0x4_0000_0000_0000 && -0x4_0000_0000_0000 < ahead < 0x4_0000_0000_0000
                && 0 < step < 0x4_0000_0000_0000 implies #[trigger] crate::roofs::is_first_label(
            difference(
                product(
                    whole_above(quotient(sum(t_min, offset), whole(step as nat))),
                    whole(step as nat),
                ),
                offset,
            ),
            from,
            ahead,
            step as int,
        ) by {
            crate::roofs::labels_begin_on_a_round_time(t_min, offset, step, from, ahead);
        }
    }
    t_min.plus(offset).over(Quantity::of(step)).ceil().times(Quantity::of(step)).minus(offset)
}

/// Two days, in seconds.
pub const TWO_DAYS_BITS: u64 = 0x4105_1800_0000_0000;

/// How a time label is written: with the day where the axis spans more than
/// two.
pub fn clock_format(span: Quantity) -> (r: &'static str)
    ensures
        r@ == if (Quantity { bits: TWO_DAYS_BITS }).less(span) {
            "%a %H:%M"@
        } else {
            "%H:%M"@
        },
{
    if span.is_above(TWO_DAYS_BITS) {
        "%a %H:%M"
    } else {
        "%H:%M"
    }
}

// Drain by charge band.

/// The rate that is ruled across the bands: today's, on battery.
pub fn drain_now(estimate: &Estimate) -> (r: Option<Quantity>)
    ensures
        r == if estimate.state == PowerState::OnBattery {
            estimate.rate_pct_hr
        } else {
            None
        },
{
    if estimate.state == PowerState::OnBattery {
        estimate.rate_pct_hr
    } else {
        None
    }
}

/// The greatest of the rates, zero where there is none.
pub open spec fn greatest_rate(rates: Seq<Option<Quantity>>) -> Quantity
    decreases rates.len(),
{
    if rates.len() == 0 {
        Quantity { bits: 0 }
    } else {
        match rates.last() {
            Some(rate) => greater(greatest_rate(rates.drop_last()), rate),
            None => greatest_rate(rates.drop_last()),
        }
    }
}

/// The top of the drain chart, percent per hour: a quarter above the greatest
/// rate, on a multiple of five. None when no drain has been measured.
pub open spec fn drain_top_of(rates: Seq<Option<Quantity>>, now: Option<Quantity>) -> Option<
    Quantity,
> {
    let top = greatest_rate(rates.push(now));
    if top.at_most(Quantity { bits: 0 }) {
        None
    } else {
        Some(
            product(
                whole_above(
                    quotient(product(top, Quantity { bits: FIVE_QUARTERS_BITS }), whole(5)),
                ),
                whole(5),
            ),
        )
    }
}

/// The top of the drain chart, percent per hour, from the rates of the bands
/// and today's.
pub fn drain_top(rates: &[Option<Quantity>; 10], now: Option<Quantity>) -> (r: Option<Quantity>)
    ensures
        r == drain_top_of(rates@, now),
{
    let mut top = Quantity::zero();
    let mut i: usize = 0;
    assert(rates@.take(0) =~= Seq::<Option<Quantity>>::empty());
    while i < BANDS
        invariant
            i <= BANDS,
            top == greatest_rate(rates@.take(i as int)),
        decreases BANDS - i,
    {
        assert(rates@.take(i + 1).drop_last() =~= rates@.take(i as int));
        assert(rates@.take(i + 1).last() == rates@[i as int]);
        if let Some(rate) = rates[i] {
            top = top.max(rate);
        }
        i += 1;
    }
    assert(rates@.take(BANDS as int) =~= rates@);
    assert(rates@.push(now).drop_last() =~= rates@);
    if let Some(rate) = now {
        top = top.max(rate);
    }
    if top.is_at_most(Quantity::zero()) {
        return None;
    }
    Some(
        top.times(Quantity { bits: FIVE_QUARTERS_BITS }).over(Quantity::of(5)).ceil().times(
            Quantity::of(5),
        ),
    )
}

/// The distance between two grid lines, percent per hour.
pub fn drain_grid_step(top: Quantity) -> (r: u8)
    ensures
        r == if (Quantity { bits: FORTY_BITS }).less(top) {
            10int
        } else {
            5int
        },
{
    if top.is_above(FORTY_BITS) {
        10
    } else {
        5
    }
}

/// The label below a band: the percentages it spans.
pub fn band_label(band: usize) -> (r: String)
    requires
        band < BANDS,
    ensures
        r@ == crate::text::decimal(band as nat * 10) + "–"@ + crate::text::decimal(
            band as nat * 10 + 10,
        ),
{
    let mut out = String::new();
    push_decimal(&mut out, band as u64 * 10);
    out.append("–");
    push_decimal(&mut out, band as u64 * 10 + 10);
    assert(out@ =~= crate::text::decimal(band as nat * 10) + "–"@ + crate::text::decimal(
        band as nat * 10 + 10,
    ));
    out
}

/// The band drawn at slot `slot`: bands run from full on the left to empty
/// on the right.
pub fn band_at_slot(slot: usize) -> (r: usize)
    requires
        slot < BANDS,
    ensures
        r == BANDS - 1 - slot,
{
    BANDS - 1 - slot
}

/// The width of a band's slot.
pub open spec fn slot_width(plot: Plot) -> Quantity {
    quotient(plot.width, whole(BANDS as nat))
}

/// The width of a band's bar.
pub open spec fn bar_width(plot: Plot) -> Quantity {
    product(slot_width(plot), Quantity { bits: BAR_BITS })
}

/// The left edge of the bar at slot `slot`, which stands in the middle of its
/// slot.
pub open spec fn bar_left(plot: Plot, slot: nat) -> Quantity {
    sum(
        sum(plot.x0, product(slot_width(plot), whole(slot))),
        quotient(difference(slot_width(plot), bar_width(plot)), whole(2)),
    )
}

/// The left edge and the width of the bar at slot `slot`.
pub fn bar_at(plot: &Plot, slot: usize) -> (r: (Quantity, Quantity))
    ensures
        r == (bar_left(*plot, slot as nat), bar_width(*plot)),
{
    let width = plot.width.over(Quantity::of(BANDS as u64));
    let bar = width.times(Quantity { bits: BAR_BITS });
    let left = plot.x0.plus(width.times(Quantity::of(slot as u64)));
    (left.plus(width.minus(bar).over(Quantity::of(2))), bar)
}

// Predicted against realized runtime.

/// One line of the accuracy chart.
#[derive(Clone, Copy, Debug, PartialEq, Eq, Structural)]
pub enum Series {
    Instant,
    Predicted,
    Realized,
}

impl Series {
    /// What this line reads from a checkpoint.
    pub open spec fn reads(self, c: Checkpoint) -> Option<u32> {
        match self {
            Series::Instant => c.instant_min,
            Series::Predicted => Some(c.predicted_min),
            Series::Realized => Some(c.realized_min),
        }
    }

    /// What this line reads from a checkpoint.
    pub fn value(self, c: &Checkpoint) -> (r: Option<u32>)
        ensures
            r == self.reads(*c),
    {
        match self {
            Series::Instant => c.instant_min,
            Series::Predicted => Some(c.predicted_min),
            Series::Realized => Some(c.realized_min),
        }
    }

    /// The name of this line in the legend.
    pub fn name(self) -> (r: &'static str)
        ensures
            r@ == match self {
                Series::Instant => "Instant reading"@,
                Series::Predicted => "Predicted"@,
                Series::Realized => "Realized"@,
            },
    {
        match self {
            Series::Instant => "Instant reading",
            Series::Predicted => "Predicted",
            Series::Realized => "Realized",
        }
    }
}

/// Where the pen goes at one checkpoint: to this many minutes, with a line
/// from the checkpoint before or without one.
#[derive(Clone, Copy, Debug, PartialEq, Eq, Structural)]
pub struct PenMove {
    pub minutes: u32,
    pub draws: bool,
}

/// Where the pen goes at checkpoint `i`, nowhere if there is nothing to read.
pub open spec fn pen_at(p: Seq<Checkpoint>, series: Series, i: int) -> Option<PenMove> {
    match series.reads(p[i]) {
        Some(minutes) => Some(
            PenMove {
                minutes,
                draws: i > 0 && series.reads(p[i - 1]) is Some && is_joined(p[i - 1].t, p[i].t),
            },
        ),
        None => None,
    }
}

/// Where the pen goes at each checkpoint.
pub fn pen_moves(points: &Vec<Checkpoint>, series: Series) -> (r: Vec<Option<PenMove>>)
    ensures
        r.len() == points.len(),
        forall|i: int| 0 <= i < r.len() ==> #[trigger] r[i] == pen_at(points@, series, i),
{
    let mut out: Vec<Option<PenMove>> = Vec::new();
    let mut pen_down = false;
    let mut last_t: u64 = 0;
    let mut i: usize = 0;
    while i < points.len()
        invariant
            i <= points.len(),
            out.len() == i,
            pen_down == (i > 0 && series.reads(points[i - 1]) is Some),
            pen_down ==> last_t == points[i - 1].t,
            forall|j: int| 0 <= j < i ==> #[trigger] out[j] == pen_at(points@, series, j),
        decreases points.len() - i,
    {
        let point = points[i];
        match series.value(&point) {
            Some(minutes) => {
                out.push(
                    Some(PenMove { minutes, draws: pen_down && are_joined(last_t, point.t) }),
                );
                pen_down = true;
                last_t = point.t;
            },
            None => {
                out.push(None);
                pen_down = false;
            },
        }
        i += 1;
    }
    out
}

/// A line is never drawn across a silence or across a checkpoint that the
/// series has nothing to say of.
pub proof fn lines_bridge_no_gap(p: Seq<Checkpoint>, series: Series, i: int)
    requires
        0 <= i < p.len(),
    ensures
        pen_at(p, series, i) matches Some(m) && m.draws ==> {
            &&& i > 0
            &&& series.reads(p[i - 1]) is Some
            &&& p[i].t - p[i - 1].t <= SESSION_GAP_SECS
        },
{
}

/// The checkpoints in a window of `range` seconds before `now`.
pub open spec fn recent_points(p: Seq<Checkpoint>, now: u64, range: u64) -> Seq<Checkpoint>
    decreases p.len(),
{
    if p.len() == 0 {
        Seq::empty()
    } else if window_start(now, range).at_most(whole(p.last().t as nat)) {
        recent_points(p.drop_last(), now, range).push(p.last())
    } else {
        recent_points(p.drop_last(), now, range)
    }
}

/// The checkpoints in a window of `range` seconds before `now`.
pub fn window_points(points: &Vec<Checkpoint>, now: u64, range: u64) -> (r: Vec<Checkpoint>)
    ensures
        r@ == recent_points(points@, now, range),
{
    let from = Quantity::of(now).minus(Quantity::of(range));
    let mut out: Vec<Checkpoint> = Vec::new();
    let mut i: usize = 0;
    assert(points@.take(0) =~= Seq::<Checkpoint>::empty());
    while i < points.len()
        invariant
            i <= points.len(),
            from == window_start(now, range),
            out@ == recent_points(points@.take(i as int), now, range),
        decreases points.len() - i,
    {
        assert(points@.take(i + 1).drop_last() =~= points@.take(i as int));
        assert(points@.take(i + 1).last() == points@[i as int]);
        if from.is_at_most(Quantity::of(points[i].t)) {
            out.push(points[i]);
        }
        i += 1;
    }
    assert(points@.take(points.len() as int) =~= points@);
    out
}

/// The more of two numbers.
pub open spec fn more_of(a: nat, b: nat) -> nat {
    if a < b {
        b
    } else {
        a
    }
}

/// The most minutes that a checkpoint shows in any line.
pub open spec fn most_minutes(c: Checkpoint) -> nat {
    more_of(
        more_of(c.predicted_min as nat, c.realized_min as nat),
        match c.instant_min {
            Some(m) => m as nat,
            None => 0,
        },
    )
}

/// The most minutes that any checkpoint shows.
pub open spec fn chart_top_of(p: Seq<Checkpoint>) -> nat
    decreases p.len(),
{
    if p.len() == 0 {
        0
    } else {
        more_of(chart_top_of(p.drop_last()), most_minutes(p.last()))
    }
}

/// The most minutes that any checkpoint shows, an hour where there is none.
pub fn chart_top(points: &Vec<Checkpoint>) -> (r: u32)
    ensures
        r == if points.len() == 0 {
            60
        } else {
            chart_top_of(points@)
        },
{
    if points.len() == 0 {
        return 60;
    }
    let mut top: u32 = 0;
    let mut i: usize = 0;
    assert(points@.take(0) =~= Seq::<Checkpoint>::empty());
    while i < points.len()
        invariant
            i <= points.len(),
            top == chart_top_of(points@.take(i as int)),
        decreases points.len() - i,
    {
        let c = points[i];
        assert(points@.take(i + 1).drop_last() =~= points@.take(i as int));
        assert(points@.take(i + 1).last() == c);
        let instant: u32 = match c.instant_min {
            Some(m) => m,
            None => 0,
        };
        let mut most = c.predicted_min;
        if most < c.realized_min {
            most = c.realized_min;
        }
        if most < instant {
            most = instant;
        }
        if top < most {
            top = most;
        }
        i += 1;
    }
    assert(points@.take(points.len() as int) =~= points@);
    top
}

/// Every line stays below the top of the chart.
pub proof fn no_line_leaves_the_chart(p: Seq<Checkpoint>, series: Series, i: int)
    requires
        0 <= i < p.len(),
    ensures
        series.reads(p[i]) matches Some(m) ==> m <= chart_top_of(p),
    decreases p.len(),
{
    if i < p.len() - 1 {
        assert(p.drop_last()[i] == p[i]);
        no_line_leaves_the_chart(p.drop_last(), series, i);
    }
}

/// The top of the runtime chart, in minutes: a bit above the most that any
/// checkpoint shows, on a whole hour, and at least one.
pub fn runtime_top(points: &Vec<Checkpoint>) -> (r: Quantity)
    ensures
        r == greater(
            product(
                whole_above(
                    quotient(
                        product(
                            whole(
                                if points.len() == 0 {
                                    60
                                } else {
                                    chart_top_of(points@)
                                },
                            ),
                            Quantity { bits: HEADROOM_BITS },
                        ),
                        whole(60),
                    ),
                ),
                whole(60),
            ),
            whole(60),
        ),
        crate::roofs::is_runtime_top(
            r,
            if points.len() == 0 {
                60
            } else {
                chart_top_of(points@) as int
            },
        ),
{
    proof {
        if points.len() == 0 {
            crate::roofs::runtime_tops_leave_room(60);
        } else {
            let _ = crate::roofs::the_highest_point_is_on_a_line(points@);
            crate::roofs::runtime_tops_leave_room(chart_top_of(points@));
        }
    }
    let top = Quantity::of(chart_top(points) as u64);
    top.times(Quantity { bits: HEADROOM_BITS }).over(Quantity::of(60)).ceil().times(
        Quantity::of(60),
    ).max(Quantity::of(60))
}

/// The distance between two grid lines, in minutes: two hours on a chart of
/// more than eight.
pub fn runtime_grid_step(top: Quantity) -> (r: u8)
    ensures
        r == if (Quantity { bits: EIGHT_HOURS_BITS }).less(top) {
            120int
        } else {
            60int
        },
{
    if top.is_above(EIGHT_HOURS_BITS) {
        120
    } else {
        60
    }
}

} // verus!
