//! The frame-time graph: a window of recent frame durations, drawn as a
//! polyline inside a border.

use std::collections::VecDeque;
use vstd::prelude::*;
use crate::canvas::{Canvas, lemma_painted_again};
use crate::line::{
    draw_line,
    lemma_level_line_fits,
    lemma_line_fits,
    line_fits,
    line_is_inside,
    on_line,
    pt,
    reach,
    spec_white,
};
use crate::math::Num;
use crate::whole::{is_small, is_whole, lemma_whole_add, lemma_whole_div, lemma_whole_mul, lemma_whole_sub};

verus! {

/// The number of samples that the history keeps.
pub const HISTORY_CAPACITY: usize = 500;

/// The number of pixels between the border and the plotted ranges.
pub const MARGIN: usize = 10;

/// The encoding of the largest finite number.
pub const LARGEST_BITS: u64 = 0x7fef_ffff_ffff_ffff;

/// The encoding of the least finite number.
pub const LEAST_BITS: u64 = 0xffef_ffff_ffff_ffff;

/// The durations of the most recent frames, in seconds, oldest first.
#[derive(Debug)]
pub struct FrameHistory {
    samples: VecDeque<Num>,
}

impl View for FrameHistory {
    type V = Seq<Num>;

    closed spec fn view(&self) -> Seq<Num> {
        self.samples@
    }
}

impl FrameHistory {
    /// Well-formedness: the history holds no more samples than its capacity.
    pub closed spec fn wf(&self) -> bool {
        self.samples@.len() <= HISTORY_CAPACITY
    }

    /// What well-formedness says of the model.
    pub proof fn lemma_wf(&self)
        requires
            self.wf(),
        ensures
            self@.len() <= HISTORY_CAPACITY,
    {
    }

    /// An empty history.
    pub fn new() -> (history: FrameHistory)
        ensures
            history.wf(),
            history@.len() == 0,
    {
        FrameHistory { samples: VecDeque::with_capacity(HISTORY_CAPACITY) }
    }

    /// The number of samples held.
    pub fn len(&self) -> (n: usize)
        ensures
            n == self@.len(),
    {
        proof {
            vstd::std_specs::vecdeque::axiom_spec_len(&self.samples);
        }
        self.samples.len()
    }

    /// The sample at place `i`, the oldest being at place 0.
    pub fn get(&self, i: usize) -> (sample: Num)
        requires
            i < self@.len(),
        ensures
            sample == self@[i as int],
    {
        proof {
            vstd::std_specs::vecdeque::axiom_spec_len(&self.samples);
        }
        self.samples[i]
    }

    /// The history after `sample` came in: it is the newest, and where the
    /// history was full the oldest has left.
    pub open spec fn pushed(history: Seq<Num>, sample: Num) -> Seq<Num> {
        if history.len() >= HISTORY_CAPACITY {
            history.subrange(1, history.len() as int).push(sample)
        } else {
            history.push(sample)
        }
    }

    /// Takes in the duration of one more frame.
    pub fn push(&mut self, sample: Num)
        requires
            old(self).wf(),
        ensures
            final(self).wf(),
            final(self)@ == FrameHistory::pushed(old(self)@, sample),
    {
        proof {
            vstd::std_specs::vecdeque::axiom_spec_len(&self.samples);
        }
        if self.samples.len() >= HISTORY_CAPACITY {
            let _ = self.samples.pop_front();
        }
        self.samples.push_back(sample);
    }
}

/// A range of numbers, from `start` to `end`; `end` may be the smaller.
#[derive(Clone, Copy, Debug)]
pub struct Interval {
    pub start: Num,
    pub end: Num,
}

/// `x` carried from one range to the other, linearly:
/// `to.start + (x - from.start) * ((to.end - to.start) / (from.end - from.start))`.
pub open spec fn spec_map(x: Num, from: Interval, to: Interval) -> Num {
    to.start.spec_add(
        x.spec_sub(from.start).spec_mul(
            to.end.spec_sub(to.start).spec_div(from.end.spec_sub(from.start)),
        ),
    )
}

/// On whole numbers the mapping is exact: where the range `to` is `k`
/// times as long as the range `from`, a whole `x` is carried to
/// `to.start + (x - from.start) * k`.
pub proof fn lemma_map_of_whole(
    x: Num,
    xv: int,
    from: Interval,
    a: int,
    b: int,
    to: Interval,
    c: int,
    k: int,
)
    requires
        is_whole(x, xv),
        is_whole(from.start, a),
        is_whole(from.end, b),
        is_whole(to.start, c),
        is_whole(to.end, c + k * (b - a)),
        a != b,
        is_small(b - a),
        is_small(k),
        is_small(k * (b - a)),
        is_small(xv - a),
        is_small((xv - a) * k),
        is_small(c + (xv - a) * k),
    ensures
        is_whole(spec_map(x, from, to), c + (xv - a) * k),
{
    let rise = to.end.spec_sub(to.start);
    let run = from.end.spec_sub(from.start);
    lemma_whole_sub(to.end, c + k * (b - a), to.start, c);
    lemma_whole_sub(from.end, b, from.start, a);
    lemma_whole_div(rise, k, run, b - a);
    let along = x.spec_sub(from.start);
    lemma_whole_sub(x, xv, from.start, a);
    lemma_whole_mul(along, xv - a, rise.spec_div(run), k);
    lemma_whole_add(to.start, c, along.spec_mul(rise.spec_div(run)), (xv - a) * k);
}

/// Carries `x` from the range `from` to the range `to`, linearly.
pub fn map(x: Num, from: Interval, to: Interval) -> (y: Num)
    ensures
        y == spec_map(x, from, to),
{
    to.start.add(x.sub(from.start).mul(to.end.sub(to.start).div(from.end.sub(from.start))))
}

/// A duration in milliseconds, given in seconds.
pub open spec fn millis(seconds: Num) -> Num {
    seconds.spec_mul(Num::spec_from_int(1000))
}

/// The least duration of the history, in milliseconds; the largest finite
/// number for an empty history.
pub open spec fn least_millis(history: Seq<Num>) -> Num
    decreases history.len(),
{
    if history.len() == 0 {
        Num { bits: LARGEST_BITS }
    } else {
        least_millis(history.drop_last()).spec_min(millis(history.last()))
    }
}

/// The greatest duration of the history, in milliseconds; the least finite
/// number for an empty history.
pub open spec fn greatest_millis(history: Seq<Num>) -> Num
    decreases history.len(),
{
    if history.len() == 0 {
        Num { bits: LEAST_BITS }
    } else {
        greatest_millis(history.drop_last()).spec_max(millis(history.last()))
    }
}

/// The horizontal range that samples are plotted in, from right to left:
/// the newest sample is at the right.
pub open spec fn plot_x(origin: (int, int), size: (int, int)) -> Interval {
    Interval {
        start: Num::spec_from_int(origin.0 + size.0 - MARGIN),
        end: Num::spec_from_int(origin.0 + MARGIN),
    }
}

/// The vertical range that durations are plotted in, from bottom to top:
/// the longest duration is at the top.
pub open spec fn plot_y(origin: (int, int), size: (int, int)) -> Interval {
    Interval {
        start: Num::spec_from_int(origin.1 + size.1 - MARGIN),
        end: Num::spec_from_int(origin.1 + MARGIN),
    }
}

/// The range of places in a full history.
pub open spec fn places() -> Interval {
    Interval { start: Num::spec_zero(), end: Num::spec_from_int(HISTORY_CAPACITY - 1) }
}

/// The polyline's vertex number `i`, which stands for the sample that is
/// `i` frames old: its place carried into the horizontal range, its
/// duration in milliseconds carried from the range of the history's
/// durations into the vertical range, both cut off toward zero.
pub open spec fn graph_point(origin: (int, int), size: (int, int), history: Seq<Num>, i: int) -> (
    int,
    int,
) {
    let sample = history[history.len() - 1 - i];
    let durations = Interval { start: least_millis(history), end: greatest_millis(history) };
    (
        spec_map(Num::spec_from_int(i), places(), plot_x(origin, size)).spec_to_int(
            isize::MIN as int,
            isize::MAX as int,
        ),
        spec_map(millis(sample), durations, plot_y(origin, size)).spec_to_int(
            isize::MIN as int,
            isize::MAX as int,
        ),
    )
}

/// The number of segments of a polyline through `samples` vertices.
pub open spec fn segment_count(samples: nat) -> nat {
    if samples >= 2 {
        (samples - 1) as nat
    } else {
        0
    }
}

/// Whether `(x, y)` is on one of the first `count` segments of the
/// polyline.
pub open spec fn on_polyline_prefix(
    origin: (int, int),
    size: (int, int),
    history: Seq<Num>,
    count: nat,
    x: int,
    y: int,
) -> bool {
    exists|s: int|
        0 <= s < count && on_line(
            #[trigger] graph_point(origin, size, history, s),
            graph_point(origin, size, history, s + 1),
            x,
            y,
        )
}

/// Whether `(x, y)` is on the polyline of the history.
pub open spec fn on_polyline(origin: (int, int), size: (int, int), history: Seq<Num>, x: int, y: int) -> bool {
    on_polyline_prefix(origin, size, history, segment_count(history.len()), x, y)
}

/// The border's four corners.
pub open spec fn top_left(origin: (int, int), size: (int, int)) -> (int, int) {
    origin
}

pub open spec fn top_right(origin: (int, int), size: (int, int)) -> (int, int) {
    (origin.0 + size.0, origin.1)
}

pub open spec fn bottom_left(origin: (int, int), size: (int, int)) -> (int, int) {
    (origin.0, origin.1 + size.1)
}

pub open spec fn bottom_right(origin: (int, int), size: (int, int)) -> (int, int) {
    (origin.0 + size.0, origin.1 + size.1)
}

/// Whether `(x, y)` is on the first `sides` sides of the border, taken as
/// top, bottom, left, right.
pub open spec fn on_border_prefix(origin: (int, int), size: (int, int), sides: nat, x: int, y: int) -> bool {
    ||| sides >= 1 && on_line(top_left(origin, size), top_right(origin, size), x, y)
    ||| sides >= 2 && on_line(bottom_left(origin, size), bottom_right(origin, size), x, y)
    ||| sides >= 3 && on_line(top_left(origin, size), bottom_left(origin, size), x, y)
    ||| sides >= 4 && on_line(top_right(origin, size), bottom_right(origin, size), x, y)
}

/// Whether `(x, y)` is on the border.
pub open spec fn on_border(origin: (int, int), size: (int, int), x: int, y: int) -> bool {
    on_border_prefix(origin, size, 4, x, y)
}

/// Whether `(x, y)` is on the graph: on its border or on its polyline.
pub open spec fn on_graph(origin: (int, int), size: (int, int), history: Seq<Num>, x: int, y: int) -> bool {
    on_border(origin, size, x, y) || on_polyline(origin, size, history, x, y)
}

/// Whether the plotted ranges can be formed: the far corner lies at least
/// the margin from the canvas's origin, and within the reach of a signed
/// coordinate.
pub open spec fn frame_is_plain(origin: (int, int), size: (int, int)) -> bool {
    &&& MARGIN <= origin.0 + size.0 <= isize::MAX
    &&& MARGIN <= origin.1 + size.1 <= isize::MAX
}

/// Whether every segment of the polyline lies on the canvas.
pub open spec fn polyline_fits(canvas: &Canvas, origin: (int, int), size: (int, int), history: Seq<Num>, count: nat) -> bool {
    forall|s: int|
        0 <= s < count ==> line_fits(
            canvas,
            #[trigger] graph_point(origin, size, history, s),
            graph_point(origin, size, history, s + 1),
        )
}

/// Whether the whole graph lies on the canvas.
pub open spec fn graph_fits(canvas: &Canvas, origin: (int, int), size: (int, int), history: Seq<Num>) -> bool {
    &&& frame_is_plain(origin, size)
    &&& line_fits(canvas, top_left(origin, size), top_right(origin, size))
    &&& line_fits(canvas, bottom_left(origin, size), bottom_right(origin, size))
    &&& line_fits(canvas, top_left(origin, size), bottom_left(origin, size))
    &&& line_fits(canvas, top_right(origin, size), bottom_right(origin, size))
    &&& polyline_fits(canvas, origin, size, history, segment_count(history.len()))
}

/// A border whose far corner is a pixel of the canvas lies on the canvas,
/// where the coordinates are whole numbers of fewer than 54 digits.
pub proof fn lemma_border_fits(canvas: &Canvas, origin: (int, int), size: (int, int))
    requires
        canvas.wf(),
        0 <= origin.0,
        0 <= origin.1,
        0 <= size.0,
        0 <= size.1,
        canvas.contains(origin.0 + size.0, origin.1 + size.1),
        origin.0 + size.0 < 0x20_0000_0000_0000,
        origin.1 + size.1 < 0x20_0000_0000_0000,
    ensures
        line_fits(canvas, top_left(origin, size), top_right(origin, size)),
        line_fits(canvas, bottom_left(origin, size), bottom_right(origin, size)),
        line_fits(canvas, top_left(origin, size), bottom_left(origin, size)),
        line_fits(canvas, top_right(origin, size), bottom_right(origin, size)),
{
    lemma_level_line_fits(canvas, top_left(origin, size), top_right(origin, size));
    lemma_level_line_fits(canvas, bottom_left(origin, size), bottom_right(origin, size));
    lemma_level_line_fits(canvas, top_left(origin, size), bottom_left(origin, size));
    lemma_level_line_fits(canvas, top_right(origin, size), bottom_right(origin, size));
}

/// A graph lies on the canvas where its far corner and every vertex of its
/// polyline are pixels of the canvas, in a canvas whose coordinates are
/// below `2^26`.
pub proof fn lemma_graph_fits(canvas: &Canvas, origin: (int, int), size: (int, int), history: Seq<Num>)
    requires
        canvas.wf(),
        canvas.spec_width() <= reach(),
        canvas.spec_height() <= reach(),
        0 <= origin.0,
        0 <= origin.1,
        0 <= size.0,
        0 <= size.1,
        MARGIN <= origin.0 + size.0,
        MARGIN <= origin.1 + size.1,
        canvas.contains(origin.0 + size.0, origin.1 + size.1),
        forall|i: int|
            0 <= i < history.len() ==> canvas.contains(
                (#[trigger] graph_point(origin, size, history, i)).0,
                graph_point(origin, size, history, i).1,
            ),
    ensures
        graph_fits(canvas, origin, size, history),
{
    canvas.lemma_wf();
    lemma_border_fits(canvas, origin, size);
    assert forall|s: int| 0 <= s < segment_count(history.len()) implies line_fits(
        canvas,
        #[trigger] graph_point(origin, size, history, s),
        graph_point(origin, size, history, s + 1),
    ) by {
        let a = graph_point(origin, size, history, s);
        let b = graph_point(origin, size, history, s + 1);
        assert(canvas.contains(a.0, a.1));
        assert(canvas.contains(b.0, b.1));
        lemma_line_fits(canvas, a, b);
    }
}

/// A history of fewer than two samples gives no segment: the graph is its
/// border. One of two samples gives the one segment between its vertices.
pub proof fn lemma_segments_of_short_history(origin: (int, int), size: (int, int), history: Seq<Num>)
    ensures
        history.len() <= 1 ==> segment_count(history.len()) == 0 && forall|x: int, y: int|
            on_graph(origin, size, history, x, y) == on_border(origin, size, x, y),
        history.len() == 2 ==> segment_count(history.len()) == 1 && forall|x: int, y: int|
            on_polyline(origin, size, history, x, y) == on_line(
                graph_point(origin, size, history, 0),
                graph_point(origin, size, history, 1),
                x,
                y,
            ),
{
    if history.len() == 2 {
        assert forall|x: int, y: int|
            on_polyline(origin, size, history, x, y) == on_line(
                graph_point(origin, size, history, 0),
                graph_point(origin, size, history, 1),
                x,
                y,
            ) by {
            if on_line(
                graph_point(origin, size, history, 0),
                graph_point(origin, size, history, 1),
                x,
                y,
            ) {
                assert(0 <= 0 < 1 && on_line(
                    graph_point(origin, size, history, 0),
                    graph_point(origin, size, history, 1),
                    x,
                    y,
                ));
            }
        }
    }
}

/// One more segment adds just its pixels to the polyline.
pub proof fn lemma_polyline_step(
    origin: (int, int),
    size: (int, int),
    history: Seq<Num>,
    count: nat,
    x: int,
    y: int,
)
    ensures
        on_polyline_prefix(origin, size, history, count + 1, x, y) <==> (on_polyline_prefix(
            origin,
            size,
            history,
            count,
            x,
            y,
        ) || on_line(
            graph_point(origin, size, history, count as int),
            graph_point(origin, size, history, count as int + 1),
            x,
            y,
        )),
{
    if on_polyline_prefix(origin, size, history, count + 1, x, y) {
        let s = choose|s: int|
            0 <= s < count + 1 && on_line(
                #[trigger] graph_point(origin, size, history, s),
                graph_point(origin, size, history, s + 1),
                x,
                y,
            );
        if s < count {
            assert(on_polyline_prefix(origin, size, history, count, x, y));
        }
    }
    if on_polyline_prefix(origin, size, history, count, x, y) {
        let s = choose|s: int|
            0 <= s < count && on_line(
                #[trigger] graph_point(origin, size, history, s),
                graph_point(origin, size, history, s + 1),
                x,
                y,
            );
        assert(0 <= s < count + 1 && on_line(
            graph_point(origin, size, history, s),
            graph_point(origin, size, history, s + 1),
            x,
            y,
        ));
    }
    if on_line(
        graph_point(origin, size, history, count as int),
        graph_point(origin, size, history, count as int + 1),
        x,
        y,
    ) {
        let s = count as int;
        assert(0 <= s < count + 1 && on_line(
            graph_point(origin, size, history, s),
            graph_point(origin, size, history, s + 1),
            x,
            y,
        ));
    }
}

/// A pair of sizes or places, as mathematical integers.
pub open spec fn upt(p: (usize, usize)) -> (int, int) {
    (p.0 as int, p.1 as int)
}

/// Whether the plotted ranges of the graph can be formed.
fn frame_plain(origin: (usize, usize), size: (usize, usize)) -> (b: bool)
    ensures
        b == frame_is_plain(upt(origin), upt(size)),
{
    let far_x: u128 = origin.0 as u128 + size.0 as u128;
    let far_y: u128 = origin.1 as u128 + size.1 as u128;
    far_x >= MARGIN as u128 && far_x <= isize::MAX as u128 && far_y >= MARGIN as u128 && far_y
        <= isize::MAX as u128
}

/// The least and the greatest duration of the history, in milliseconds.
fn extremes(history: &FrameHistory) -> (range: Interval)
    requires
        history.wf(),
    ensures
        range.start == least_millis(history@),
        range.end == greatest_millis(history@),
{
    let n: usize = history.len();
    let thousand = Num::from_i64(1000);
    let mut least = Num { bits: LARGEST_BITS };
    let mut greatest = Num { bits: LEAST_BITS };
    let mut i: usize = 0;
    while i < n
        invariant
            i <= n,
            n == history@.len(),
            thousand == Num::spec_from_int(1000),
            least == least_millis(history@.subrange(0, i as int)),
            greatest == greatest_millis(history@.subrange(0, i as int)),
        decreases n - i,
    {
        let ms = history.get(i).mul(thousand);
        proof {
            let next = history@.subrange(0, i + 1);
            assert(next.drop_last() =~= history@.subrange(0, i as int));
            assert(next.last() == history@[i as int]);
        }
        least = least.min(ms);
        greatest = greatest.max(ms);
        i = i + 1;
    }
    proof {
        assert(history@.subrange(0, n as int) =~= history@);
    }
    Interval { start: least, end: greatest }
}

/// The vertices of the polyline, the newest sample's first.
pub fn graph_points(origin: (usize, usize), size: (usize, usize), history: &FrameHistory) -> (points: Vec<(isize, isize)>)
    requires
        history.wf(),
        frame_is_plain(upt(origin), upt(size)),
    ensures
        points@.len() == history@.len(),
        forall|i: int|
            0 <= i < points@.len() ==> pt(#[trigger] points@[i]) == graph_point(
                upt(origin),
                upt(size),
                history@,
                i,
            ),
{
    let n: usize = history.len();
    let durations = extremes(history);
    let thousand = Num::from_i64(1000);
    let across = Interval {
        start: Num::from_i128(origin.0 as i128 + size.0 as i128 - MARGIN as i128),
        end: Num::from_i128(origin.0 as i128 + MARGIN as i128),
    };
    let down = Interval {
        start: Num::from_i128(origin.1 as i128 + size.1 as i128 - MARGIN as i128),
        end: Num::from_i128(origin.1 as i128 + MARGIN as i128),
    };
    let full = Interval { start: Num::zero(), end: Num::from_usize(HISTORY_CAPACITY - 1) };
    let mut points: Vec<(isize, isize)> = Vec::new();
    let mut i: usize = 0;
    while i < n
        invariant
            i <= n,
            n == history@.len(),
            thousand == Num::spec_from_int(1000),
            durations.start == least_millis(history@),
            durations.end == greatest_millis(history@),
            across == plot_x(upt(origin), upt(size)),
            down == plot_y(upt(origin), upt(size)),
            full == places(),
            points@.len() == i,
            forall|j: int|
                0 <= j < i ==> pt(#[trigger] points@[j]) == graph_point(
                    upt(origin),
                    upt(size),
                    history@,
                    j,
                ),
        decreases n - i,
    {
        let sample = history.get(n - 1 - i);
        let x = map(Num::from_usize(i), full, across).to_isize();
        let y = map(sample.mul(thousand), durations, down).to_isize();
        points.push((x, y));
        i = i + 1;
    }
    points
}

/// Whether the whole graph lies on the canvas.
pub fn graph_is_inside(
    canvas: &Canvas,
    origin: (usize, usize),
    size: (usize, usize),
    history: &FrameHistory,
) -> (inside: bool)
    requires
        canvas.wf(),
        history.wf(),
    ensures
        inside == graph_fits(canvas, upt(origin), upt(size), history@),
{
    if !frame_plain(origin, size) {
        return false;
    }
    let left: isize = origin.0 as isize;
    let top: isize = origin.1 as isize;
    let right: isize = (origin.0 + size.0) as isize;
    let bottom: isize = (origin.1 + size.1) as isize;
    if !line_is_inside(canvas, (left, top), (right, top)) {
        return false;
    }
    if !line_is_inside(canvas, (left, bottom), (right, bottom)) {
        return false;
    }
    if !line_is_inside(canvas, (left, top), (left, bottom)) {
        return false;
    }
    if !line_is_inside(canvas, (right, top), (right, bottom)) {
        return false;
    }
    let points = graph_points(origin, size, history);
    let n: usize = points.len();
    proof {
        history.lemma_wf();
    }
    let ghost o = upt(origin);
    let ghost z = upt(size);
    let mut s: usize = 0;
    while s + 1 < n
        invariant
            canvas.wf(),
            o == upt(origin),
            z == upt(size),
            n == points@.len(),
            n == history@.len(),
            n <= HISTORY_CAPACITY,
            s <= segment_count(n as nat),
            forall|i: int|
                0 <= i < points@.len() ==> pt(#[trigger] points@[i]) == graph_point(
                    o,
                    z,
                    history@,
                    i,
                ),
            polyline_fits(canvas, o, z, history@, s as nat),
        decreases n - s,
    {
        let a = points[s];
        let b = points[s + 1];
        assert(pt(a) == graph_point(o, z, history@, s as int));
        assert(pt(b) == graph_point(o, z, history@, s + 1));
        if !line_is_inside(canvas, a, b) {
            assert(!polyline_fits(canvas, o, z, history@, segment_count(history@.len()))) by {
                let w = s as int;
                assert(0 <= w < segment_count(history@.len()));
                assert(!line_fits(
                    canvas,
                    graph_point(o, z, history@, w),
                    graph_point(o, z, history@, w + 1),
                ));
            }
            return false;
        }
        s = s + 1;
    }
    assert(polyline_fits(canvas, o, z, history@, segment_count(history@.len()))) by {
        assert forall|w: int| 0 <= w < segment_count(history@.len()) implies line_fits(
            canvas,
            #[trigger] graph_point(o, z, history@, w),
            graph_point(o, z, history@, w + 1),
        ) by {
            assert(w < s);
        }
    }
    true
}

/// Draws the frame-time graph: the border of the rectangle at `origin` of
/// the given `size`, and in it the polyline of the history.
pub fn draw_frame_time_graph(
    canvas: &mut Canvas,
    origin: (usize, usize),
    size: (usize, usize),
    history: &FrameHistory,
)
    requires
        old(canvas).wf(),
        history.wf(),
        graph_fits(old(canvas), upt(origin), upt(size), history@),
    ensures
        final(canvas).wf(),
        final(canvas).is_painted(
            old(canvas),
            |x: int, y: int| on_graph(upt(origin), upt(size), history@, x, y),
            spec_white(),
        ),
{
    let ghost o = upt(origin);
    let ghost z = upt(size);
    let ghost h = history@;
    let left: isize = origin.0 as isize;
    let top: isize = origin.1 as isize;
    let right: isize = (origin.0 + size.0) as isize;
    let bottom: isize = (origin.1 + size.1) as isize;

    draw_line(canvas, (left, top), (right, top));
    let ghost c1 = *canvas;
    assert(c1.is_painted(old(canvas), |x: int, y: int| on_border_prefix(o, z, 1, x, y), spec_white()));

    draw_line(canvas, (left, bottom), (right, bottom));
    let ghost c2 = *canvas;
    proof {
        lemma_painted_again(
            old(canvas),
            &c1,
            &c2,
            |x: int, y: int| on_border_prefix(o, z, 1, x, y),
            |x: int, y: int| on_line(pt((left, bottom)), pt((right, bottom)), x, y),
            |x: int, y: int| on_border_prefix(o, z, 2, x, y),
            spec_white(),
        );
    }

    draw_line(canvas, (left, top), (left, bottom));
    let ghost c3 = *canvas;
    proof {
        lemma_painted_again(
            old(canvas),
            &c2,
            &c3,
            |x: int, y: int| on_border_prefix(o, z, 2, x, y),
            |x: int, y: int| on_line(pt((left, top)), pt((left, bottom)), x, y),
            |x: int, y: int| on_border_prefix(o, z, 3, x, y),
            spec_white(),
        );
    }

    draw_line(canvas, (right, top), (right, bottom));
    let ghost c4 = *canvas;
    proof {
        lemma_painted_again(
            old(canvas),
            &c3,
            &c4,
            |x: int, y: int| on_border_prefix(o, z, 3, x, y),
            |x: int, y: int| on_line(pt((right, top)), pt((right, bottom)), x, y),
            |x: int, y: int| on_border_prefix(o, z, 4, x, y),
            spec_white(),
        );
        lemma_painted_again(
            old(canvas),
            &c4,
            &c4,
            |x: int, y: int| on_border_prefix(o, z, 4, x, y),
            |x: int, y: int| false,
            |x: int, y: int| on_border(o, z, x, y) || on_polyline_prefix(o, z, h, 0, x, y),
            spec_white(),
        );
    }

    let points = graph_points(origin, size, history);
    let n: usize = points.len();
    proof {
        history.lemma_wf();
    }
    let mut s: usize = 0;
    while s + 1 < n
        invariant
            canvas.wf(),
            canvas.same_size(old(canvas)),
            o == upt(origin),
            z == upt(size),
            h == history@,
            n == points@.len(),
            n == h.len(),
            n <= HISTORY_CAPACITY,
            s <= segment_count(n as nat),
            polyline_fits(old(canvas), o, z, h, segment_count(h.len())),
            forall|i: int|
                0 <= i < points@.len() ==> pt(#[trigger] points@[i]) == graph_point(o, z, h, i),
            canvas.is_painted(
                old(canvas),
                |x: int, y: int| on_border(o, z, x, y) || on_polyline_prefix(o, z, h, s as nat, x, y),
                spec_white(),
            ),
        decreases n - s,
    {
        let a = points[s];
        let b = points[s + 1];
        assert(pt(a) == graph_point(o, z, h, s as int));
        assert(pt(b) == graph_point(o, z, h, s + 1));
        assert(line_fits(old(canvas), graph_point(o, z, h, s as int), graph_point(o, z, h, s + 1)));
        let ghost before = *canvas;
        draw_line(canvas, a, b);
        proof {
            assert forall|x: int, y: int| #![auto]
                (on_border(o, z, x, y) || on_polyline_prefix(o, z, h, (s + 1) as nat, x, y)) == ((
                on_border(o, z, x, y) || on_polyline_prefix(o, z, h, s as nat, x, y)) || on_line(
                    pt(a),
                    pt(b),
                    x,
                    y,
                )) by {
                lemma_polyline_step(o, z, h, s as nat, x, y);
            }
            lemma_painted_again(
                old(canvas),
                &before,
                canvas,
                |x: int, y: int| on_border(o, z, x, y) || on_polyline_prefix(o, z, h, s as nat, x, y),
                |x: int, y: int| on_line(pt(a), pt(b), x, y),
                |x: int, y: int|
                    on_border(o, z, x, y) || on_polyline_prefix(o, z, h, (s + 1) as nat, x, y),
                spec_white(),
            );
        }
        s = s + 1;
    }
    assert(s == segment_count(h.len()));
}

/// Draws the frame-time graph if all of it lies on the canvas, and says
/// whether it did; a graph that does not is not drawn at all.
pub fn try_draw_frame_time_graph(
    canvas: &mut Canvas,
    origin: (usize, usize),
    size: (usize, usize),
    history: &FrameHistory,
) -> (drawn: bool)
    requires
        old(canvas).wf(),
        history.wf(),
    ensures
        final(canvas).wf(),
        drawn == graph_fits(old(canvas), upt(origin), upt(size), history@),
        drawn ==> final(canvas).is_painted(
            old(canvas),
            |x: int, y: int| on_graph(upt(origin), upt(size), history@, x, y),
            spec_white(),
        ),
        !drawn ==> *final(canvas) == *old(canvas),
{
    if graph_is_inside(canvas, origin, size, history) {
        draw_frame_time_graph(canvas, origin, size, history);
        true
    } else {
        false
    }
}

} // verus!
