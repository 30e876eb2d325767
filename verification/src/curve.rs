//! The curve generator: the ordered segments of a Dragon curve.
//!
//! A curve of order `n` is built by two-way subdivision. Each level splits
//! the colour range at its midpoint, draws a curve of order `n - 1` over the
//! first half with a sub-turn of +45 degrees, turns by the outer angle, and
//! draws a curve of order `n - 1` over the second half with a sub-turn of
//! -45 degrees. Angles are whole degrees, distances whole units and colour
//! channels whole steps, so the generator is exact.

use vstd::arithmetic::power2::{
    lemma2_to64, lemma_pow2_pos, lemma_pow2_strictly_increases, lemma_pow2_unfold, pow2,
};
use vstd::prelude::*;

verus! {

/// The sub-turn, in degrees, that opens the first half of every subdivision.
pub const FIRST_SUB_TURN: i32 = 45;

/// The sub-turn, in degrees, that opens the second half of every subdivision.
pub const SECOND_SUB_TURN: i32 = -45;

/// The distance that a leaf segment moves forward.
pub const LEAF_DISTANCE: u32 = 1;

/// One of the three channels of a [`Color`].
pub enum Channel {
    Red,
    Green,
    Blue,
}

/// A stroke colour.
#[derive(Clone, Copy, Debug, PartialEq, Eq, Structural)]
pub struct Color {
    pub red: u8,
    pub green: u8,
    pub blue: u8,
}

/// One drawing instruction: turn by `turn_delta` degrees, then move forward
/// by `distance` with the pen set to `color`.
#[derive(Clone, Copy, Debug, PartialEq, Eq, Structural)]
pub struct Segment {
    pub turn_delta: i32,
    pub distance: u32,
    pub color: Color,
}

/// The midpoint of one channel: `start + (end - start) / 2`, the quotient
/// rounded toward zero.
pub open spec fn channel_midpoint(start: int, end: int) -> int {
    if start <= end {
        start + (end - start) / 2
    } else {
        start - (start - end) / 2
    }
}

/// `x` is no further from `start` than `y` is, going toward `end`.
pub open spec fn ordered_toward(start: int, end: int, x: int, y: int) -> bool {
    &&& start <= end ==> x <= y
    &&& start >= end ==> x >= y
}

/// `y` is further from `start` than `x` is, going toward `end`.
pub open spec fn strictly_toward(start: int, end: int, x: int, y: int) -> bool {
    &&& start < end ==> x < y
    &&& start > end ==> x > y
}

/// How far apart `start` and `end` are.
pub open spec fn span(start: int, end: int) -> int {
    if start <= end {
        end - start
    } else {
        start - end
    }
}

/// The leaf that closes the recursion: it turns by `turn` and moves forward.
pub open spec fn leaf(turn: i32, color: Color) -> Segment {
    Segment { turn_delta: turn, distance: LEAF_DISTANCE, color }
}

/// The segment that joins the two halves of a subdivision: it turns by
/// `outer` and does not move.
pub open spec fn joint(outer: i32, color: Color) -> Segment {
    Segment { turn_delta: outer, distance: 0, color }
}

/// The segments of a curve of order `order` that opens with `turn`, joins
/// its halves with `outer`, and runs from `start` to `end` in colour.
pub open spec fn curve(order: nat, turn: i32, outer: i32, start: Color, end: Color) -> Seq<
    Segment,
>
    decreases order,
{
    if order == 0 {
        seq![leaf(turn, start)]
    } else {
        let mid = start.midpoint_spec(end);
        curve((order - 1) as nat, FIRST_SUB_TURN, outer, start, mid) + seq![joint(outer, mid)] + curve(
            (order - 1) as nat,
            SECOND_SUB_TURN,
            outer,
            mid,
            end,
        )
    }
}

/// The Dragon curve of order `order`: the outer turn also opens the curve.
pub open spec fn dragon_curve(order: nat, outer: i32, start: Color, end: Color) -> Seq<Segment> {
    curve(order, outer, outer, start, end)
}

/// The number of segments in a curve of order `order`.
pub open spec fn segment_count(order: nat) -> nat {
    (pow2(order + 1) - 1) as nat
}

/// The turn of leaf number `k` (counted from 0) in a curve of order `order`
/// that opens with `turn`: above order 0 the leaves alternate between the
/// two sub-turns.
pub open spec fn leaf_turn(order: nat, turn: i32, k: int) -> i32 {
    if order == 0 {
        turn
    } else if k % 2 == 0 {
        FIRST_SUB_TURN
    } else {
        SECOND_SUB_TURN
    }
}

/// Leaves and joints alternate in `segments`, starting with a leaf: every
/// joint turns by `outer` and stays in place, and every leaf moves forward
/// after the turn that `leaf_turn` gives it.
pub open spec fn interleaved(segments: Seq<Segment>, order: nat, turn: i32, outer: i32) -> bool {
    forall|i: int|
        0 <= i < segments.len() ==> {
            let s = #[trigger] segments[i];
            if i % 2 == 1 {
                s.turn_delta == outer && s.distance == 0
            } else {
                s.turn_delta == leaf_turn(order, turn, i / 2) && s.distance == LEAF_DISTANCE
            }
        }
}

/// Every colour in `segments` lies between `start` and `end`, and along the
/// sequence no channel ever moves back toward `start`.
pub open spec fn graded(segments: Seq<Segment>, start: Color, end: Color) -> bool {
    &&& forall|i: int, ch: Channel|
        0 <= i < segments.len() ==> {
            let c = #[trigger] segments[i].color.channel(ch);
            ordered_toward(start.channel(ch), end.channel(ch), start.channel(ch), c)
                && ordered_toward(start.channel(ch), end.channel(ch), c, end.channel(ch))
        }
    &&& forall|i: int, j: int, ch: Channel|
        0 <= i <= j < segments.len() ==> ordered_toward(
            start.channel(ch),
            end.channel(ch),
            #[trigger] segments[i].color.channel(ch),
            #[trigger] segments[j].color.channel(ch),
        )
}

impl Color {
    /// The value of one channel.
    pub open spec fn channel(self, ch: Channel) -> int {
        match ch {
            Channel::Red => self.red as int,
            Channel::Green => self.green as int,
            Channel::Blue => self.blue as int,
        }
    }

    /// The colour halfway from `self` to `end`, channel by channel.
    pub open spec fn midpoint_spec(self, end: Color) -> Color {
        Color {
            red: channel_midpoint(self.red as int, end.red as int) as u8,
            green: channel_midpoint(self.green as int, end.green as int) as u8,
            blue: channel_midpoint(self.blue as int, end.blue as int) as u8,
        }
    }

    /// The colour halfway from `self` to `end`, channel by channel.
    pub fn midpoint(self, end: Color) -> (mid: Color)
        ensures
            mid == self.midpoint_spec(end),
    {
        Color {
            red: midpoint_u8(self.red, end.red),
            green: midpoint_u8(self.green, end.green),
            blue: midpoint_u8(self.blue, end.blue),
        }
    }
}

fn midpoint_u8(start: u8, end: u8) -> (mid: u8)
    ensures
        mid == channel_midpoint(start as int, end as int),
{
    if start <= end {
        start + (end - start) / 2
    } else {
        start - (start - end) / 2
    }
}

/// Appends the segments of `curve(order, turn, outer, start, end)` to `out`.
fn emit(order: u32, turn: i32, outer: i32, start: Color, end: Color, out: &mut Vec<Segment>)
    ensures
        final(out)@ == old(out)@ + curve(order as nat, turn, outer, start, end),
    decreases order,
{
    if order == 0 {
        out.push(Segment { turn_delta: turn, distance: LEAF_DISTANCE, color: start });
        assert(out@ =~= old(out)@ + curve(0, turn, outer, start, end));
    } else {
        let mid = start.midpoint(end);
        emit(order - 1, FIRST_SUB_TURN, outer, start, mid, out);
        out.push(Segment { turn_delta: outer, distance: 0, color: mid });
        emit(order - 1, SECOND_SUB_TURN, outer, mid, end, out);
        assert(out@ =~= old(out)@ + curve(order as nat, turn, outer, start, end));
    }
}

/// Whether a vector can hold the segments of a curve of order `order`:
/// whether their number fits in a `usize`.
pub fn order_fits(order: u32) -> (fits: bool)
    ensures
        fits == (segment_count(order as nat) <= usize::MAX),
{
    proof {
        lemma_order_fits(order as nat);
    }
    order < usize::BITS
}

/// The segments of a curve can be counted in a `usize` exactly where the
/// order is below the number of bits of a `usize`.
pub proof fn lemma_order_fits(order: nat)
    ensures
        segment_count(order) <= usize::MAX <==> order < usize::BITS,
{
    let bits = usize::BITS as nat;
    assert(pow2(bits) == usize::MAX + 1) by {
        lemma2_to64();
        assert(bits == 32 || bits == 64);
    }
    lemma_pow2_pos(order + 1);
    if order + 1 < bits {
        lemma_pow2_strictly_increases(order + 1, bits);
    } else if order + 1 > bits {
        lemma_pow2_strictly_increases(bits, order + 1);
    }
}

/// Generates the curve of order `order` that opens with `turn` and joins
/// its halves with `outer`, coloured from `start` to `end`. The order must
/// be one whose segments a vector can hold: `order_fits` tells, and so does
/// `lemma_order_fits`.
pub fn subdivide(order: u32, turn: i32, outer: i32, start: Color, end: Color) -> (segments: Vec<
    Segment,
>)
    requires
        segment_count(order as nat) <= usize::MAX,
    ensures
        segments@ == curve(order as nat, turn, outer, start, end),
        segments@.len() == segment_count(order as nat),
        interleaved(segments@, order as nat, turn, outer),
        graded(segments@, start, end),
{
    let mut segments: Vec<Segment> = Vec::new();
    emit(order, turn, outer, start, end, &mut segments);
    proof {
        lemma_curve_len(order as nat, turn, outer, start, end);
        lemma_curve_interleaved(order as nat, turn, outer, start, end);
        lemma_curve_graded(order as nat, turn, outer, start, end);
        assert(segments@ =~= curve(order as nat, turn, outer, start, end));
    }
    segments
}

/// Generates the Dragon curve of order `order` with outer turn `outer`,
/// coloured from `start` to `end`. The order must be one whose segments a
/// vector can hold: `order_fits` tells, and so does `lemma_order_fits`.
pub fn dragon(order: u32, outer: i32, start: Color, end: Color) -> (segments: Vec<Segment>)
    requires
        segment_count(order as nat) <= usize::MAX,
    ensures
        segments@ == dragon_curve(order as nat, outer, start, end),
        segments@.len() == segment_count(order as nat),
        interleaved(segments@, order as nat, outer, outer),
        graded(segments@, start, end),
{
    subdivide(order, outer, outer, start, end)
}

/// A curve of order `n` has `2^(n+1) - 1` segments: one for order 0, and
/// for every further order twice as many and one more.
pub proof fn lemma_curve_len(order: nat, turn: i32, outer: i32, start: Color, end: Color)
    ensures
        curve(order, turn, outer, start, end).len() == segment_count(order),
        segment_count(order) == pow2(order + 1) - 1,
        order == 0 ==> segment_count(order) == 1,
        order > 0 ==> segment_count(order) == 2 * segment_count((order - 1) as nat) + 1,
    decreases order,
{
    lemma_pow2_unfold(order + 1);
    if order == 0 {
        lemma2_to64();
    } else {
        let mid = start.midpoint_spec(end);
        lemma_curve_len((order - 1) as nat, FIRST_SUB_TURN, outer, start, mid);
        lemma_curve_len((order - 1) as nat, SECOND_SUB_TURN, outer, mid, end);
    }
}

/// A curve above order 0 is its first half, the joint at its midpoint, and
/// its second half: the joint carries the outer turn and the midpoint
/// colour, and both halves are curves of the order below with the same
/// outer turn.
pub proof fn lemma_curve_split(order: nat, turn: i32, outer: i32, start: Color, end: Color)
    requires
        order > 0,
    ensures
        ({
            let whole = curve(order, turn, outer, start, end);
            let half = segment_count((order - 1) as nat) as int;
            let mid = start.midpoint_spec(end);
            &&& whole.len() == 2 * half + 1
            &&& whole[half] == joint(outer, mid)
            &&& whole.subrange(0, half) == curve((order - 1) as nat, FIRST_SUB_TURN, outer, start, mid)
            &&& whole.subrange(half + 1, 2 * half + 1) == curve(
                (order - 1) as nat,
                SECOND_SUB_TURN,
                outer,
                mid,
                end,
            )
        }),
{
    let whole = curve(order, turn, outer, start, end);
    let half = segment_count((order - 1) as nat) as int;
    let mid = start.midpoint_spec(end);
    let first = curve((order - 1) as nat, FIRST_SUB_TURN, outer, start, mid);
    let second = curve((order - 1) as nat, SECOND_SUB_TURN, outer, mid, end);
    lemma_curve_len((order - 1) as nat, FIRST_SUB_TURN, outer, start, mid);
    lemma_curve_len((order - 1) as nat, SECOND_SUB_TURN, outer, mid, end);
    assert(whole == first + seq![joint(outer, mid)] + second);
    assert(whole.subrange(0, half) =~= first);
    assert(whole.subrange(half + 1, 2 * half + 1) =~= second);
}

/// The segment at position `i` of a curve, read off the half that holds it.
proof fn lemma_curve_index(order: nat, turn: i32, outer: i32, start: Color, end: Color, i: int)
    requires
        order > 0,
        0 <= i < segment_count(order),
    ensures
        ({
            let whole = curve(order, turn, outer, start, end);
            let half = segment_count((order - 1) as nat) as int;
            let mid = start.midpoint_spec(end);
            &&& segment_count(order) == 2 * half + 1
            &&& i < half ==> whole[i] == curve((order - 1) as nat, FIRST_SUB_TURN, outer, start, mid)[i]
            &&& i == half ==> whole[i] == joint(outer, mid)
            &&& i > half ==> whole[i] == curve(
                (order - 1) as nat,
                SECOND_SUB_TURN,
                outer,
                mid,
                end,
            )[i - half - 1]
        }),
{
    let mid = start.midpoint_spec(end);
    lemma_curve_len(order, turn, outer, start, end);
    lemma_curve_len((order - 1) as nat, FIRST_SUB_TURN, outer, start, mid);
    lemma_curve_len((order - 1) as nat, SECOND_SUB_TURN, outer, mid, end);
}

proof fn lemma_interleaved_at(
    order: nat,
    turn: i32,
    outer: i32,
    start: Color,
    end: Color,
    i: int,
)
    requires
        0 <= i < segment_count(order),
    ensures
        ({
            let s = curve(order, turn, outer, start, end)[i];
            if i % 2 == 1 {
                s.turn_delta == outer && s.distance == 0
            } else {
                s.turn_delta == leaf_turn(order, turn, i / 2) && s.distance == LEAF_DISTANCE
            }
        }),
    decreases order,
{
    lemma_curve_len(order, turn, outer, start, end);
    if order > 0 {
        let below = (order - 1) as nat;
        let half = segment_count(below) as int;
        let mid = start.midpoint_spec(end);
        lemma_curve_index(order, turn, outer, start, end, i);
        lemma_curve_len(below, FIRST_SUB_TURN, outer, start, mid);
        if i < half {
            lemma_interleaved_at(below, FIRST_SUB_TURN, outer, start, mid, i);
        } else if i > half {
            let j = i - half - 1;
            lemma_interleaved_at(below, SECOND_SUB_TURN, outer, mid, end, j);
            if below > 0 {
                // half + 1 is a multiple of four, so leaf numbers keep their parity
                lemma_curve_len((below - 1) as nat, FIRST_SUB_TURN, outer, start, mid);
                let quarter = (segment_count((below - 1) as nat) + 1) / 2;
                assert(i == j + 4 * quarter);
                assert(i % 2 == j % 2 && (i / 2) % 2 == (j / 2) % 2) by {
                    lemma_shift_by_fours(j, quarter as int);
                }
            } else {
                assert(i == 2 && j == 0);
            }
        }
    }
}

/// Moving a position on by a multiple of four changes neither its parity
/// nor the parity of its half.
proof fn lemma_shift_by_fours(j: int, q: int)
    requires
        0 <= j,
        0 <= q,
    ensures
        (j + 4 * q) % 2 == j % 2,
        ((j + 4 * q) / 2) % 2 == (j / 2) % 2,
    decreases q,
{
    if q > 0 {
        lemma_shift_by_fours(j, q - 1);
        assert(j + 4 * q == (j + 4 * (q - 1)) + 4);
    }
}

/// In every curve leaves and joints alternate, each joint carries the outer
/// turn unchanged, and the leaves' turns follow `leaf_turn`.
pub proof fn lemma_curve_interleaved(order: nat, turn: i32, outer: i32, start: Color, end: Color)
    ensures
        interleaved(curve(order, turn, outer, start, end), order, turn, outer),
{
    let segments = curve(order, turn, outer, start, end);
    lemma_curve_len(order, turn, outer, start, end);
    assert forall|i: int| 0 <= i < segments.len() implies {
        let s = #[trigger] segments[i];
        if i % 2 == 1 {
            s.turn_delta == outer && s.distance == 0
        } else {
            s.turn_delta == leaf_turn(order, turn, i / 2) && s.distance == LEAF_DISTANCE
        }
    } by {
        lemma_interleaved_at(order, turn, outer, start, end, i);
    }
}

/// The midpoint of a channel lies between its two ends.
pub proof fn lemma_midpoint_between(start: Color, end: Color, ch: Channel)
    ensures
        start.midpoint_spec(end).channel(ch) == channel_midpoint(
            start.channel(ch),
            end.channel(ch),
        ),
        ordered_toward(
            start.channel(ch),
            end.channel(ch),
            start.channel(ch),
            start.midpoint_spec(end).channel(ch),
        ),
        ordered_toward(
            start.channel(ch),
            end.channel(ch),
            start.midpoint_spec(end).channel(ch),
            end.channel(ch),
        ),
{
}

proof fn lemma_within_at(
    order: nat,
    turn: i32,
    outer: i32,
    start: Color,
    end: Color,
    ch: Channel,
    i: int,
)
    requires
        0 <= i < segment_count(order),
    ensures
        ({
            let c = curve(order, turn, outer, start, end)[i].color.channel(ch);
            ordered_toward(start.channel(ch), end.channel(ch), start.channel(ch), c)
                && ordered_toward(start.channel(ch), end.channel(ch), c, end.channel(ch))
        }),
    decreases order,
{
    lemma_curve_len(order, turn, outer, start, end);
    if order > 0 {
        let below = (order - 1) as nat;
        let half = segment_count(below) as int;
        let mid = start.midpoint_spec(end);
        lemma_curve_index(order, turn, outer, start, end, i);
        lemma_midpoint_between(start, end, ch);
        if i < half {
            lemma_within_at(below, FIRST_SUB_TURN, outer, start, mid, ch, i);
        } else if i > half {
            lemma_within_at(below, SECOND_SUB_TURN, outer, mid, end, ch, i - half - 1);
        }
    }
}

proof fn lemma_graded_at(
    order: nat,
    turn: i32,
    outer: i32,
    start: Color,
    end: Color,
    ch: Channel,
    i: int,
    j: int,
)
    requires
        0 <= i <= j < segment_count(order),
    ensures
        ordered_toward(
            start.channel(ch),
            end.channel(ch),
            curve(order, turn, outer, start, end)[i].color.channel(ch),
            curve(order, turn, outer, start, end)[j].color.channel(ch),
        ),
    decreases order,
{
    lemma_curve_len(order, turn, outer, start, end);
    if order > 0 {
        let below = (order - 1) as nat;
        let half = segment_count(below) as int;
        let mid = start.midpoint_spec(end);
        lemma_curve_index(order, turn, outer, start, end, i);
        lemma_curve_index(order, turn, outer, start, end, j);
        lemma_midpoint_between(start, end, ch);
        if i < half {
            lemma_within_at(below, FIRST_SUB_TURN, outer, start, mid, ch, i);
        }
        if j > half {
            lemma_within_at(below, SECOND_SUB_TURN, outer, mid, end, ch, j - half - 1);
        }
        if j < half {
            lemma_graded_at(below, FIRST_SUB_TURN, outer, start, mid, ch, i, j);
        } else if i > half {
            lemma_graded_at(
                below,
                SECOND_SUB_TURN,
                outer,
                mid,
                end,
                ch,
                i - half - 1,
                j - half - 1,
            );
        }
    }
}

/// Colours run monotonically along a curve: every channel stays between its
/// start and end value, and from one segment to any later one it never moves
/// back toward the start.
pub proof fn lemma_curve_graded(order: nat, turn: i32, outer: i32, start: Color, end: Color)
    ensures
        graded(curve(order, turn, outer, start, end), start, end),
{
    let segments = curve(order, turn, outer, start, end);
    lemma_curve_len(order, turn, outer, start, end);
    assert forall|i: int, ch: Channel| 0 <= i < segments.len() implies {
        let c = #[trigger] segments[i].color.channel(ch);
        ordered_toward(start.channel(ch), end.channel(ch), start.channel(ch), c) && ordered_toward(
            start.channel(ch),
            end.channel(ch),
            c,
            end.channel(ch),
        )
    } by {
        lemma_within_at(order, turn, outer, start, end, ch, i);
    }
    assert forall|i: int, j: int, ch: Channel| 0 <= i <= j < segments.len() implies ordered_toward(
        start.channel(ch),
        end.channel(ch),
        #[trigger] segments[i].color.channel(ch),
        #[trigger] segments[j].color.channel(ch),
    ) by {
        lemma_graded_at(order, turn, outer, start, end, ch, i, j);
    }
}

/// Halving a range that is at least `2 * width` wide leaves two ranges that
/// are each at least `width` wide and run the same way.
proof fn lemma_halves_span(start: Color, end: Color, ch: Channel, width: int)
    requires
        span(start.channel(ch), end.channel(ch)) >= 2 * width,
        width >= 1,
    ensures
        ({
            let mid = start.midpoint_spec(end).channel(ch);
            &&& span(start.channel(ch), mid) >= width
            &&& span(mid, end.channel(ch)) >= width
            &&& start.channel(ch) < end.channel(ch) ==> start.channel(ch) < mid < end.channel(ch)
            &&& start.channel(ch) > end.channel(ch) ==> start.channel(ch) > mid > end.channel(ch)
        }),
{
    lemma_midpoint_between(start, end, ch);
}

/// Where a channel's range is at least `2^order` wide, every leaf stops
/// short of the end of the range.
proof fn lemma_leaf_before_end(
    order: nat,
    turn: i32,
    outer: i32,
    start: Color,
    end: Color,
    ch: Channel,
    i: int,
)
    requires
        0 <= i < segment_count(order),
        i % 2 == 0,
        span(start.channel(ch), end.channel(ch)) >= pow2(order),
    ensures
        strictly_toward(
            start.channel(ch),
            end.channel(ch),
            curve(order, turn, outer, start, end)[i].color.channel(ch),
            end.channel(ch),
        ),
    decreases order,
{
    lemma_curve_len(order, turn, outer, start, end);
    if order == 0 {
        lemma2_to64();
    } else {
        let below = (order - 1) as nat;
        let half = segment_count(below) as int;
        let mid = start.midpoint_spec(end);
        lemma_pow2_unfold(order);
        lemma_pow2_pos(below);
        lemma_halves_span(start, end, ch, pow2(below) as int);
        lemma_curve_index(order, turn, outer, start, end, i);
        lemma_curve_len(below, FIRST_SUB_TURN, outer, start, mid);
        assert(half % 2 == 1);
        if i < half {
            lemma_leaf_before_end(below, FIRST_SUB_TURN, outer, start, mid, ch, i);
        } else {
            let j = i - half - 1;
            assert(0 <= j && j % 2 == 0);
            lemma_leaf_before_end(below, SECOND_SUB_TURN, outer, mid, end, ch, j);
        }
    }
}

/// Where a channel's range is at least `2^order` wide, no two leaves share
/// its value: from each leaf to any later one the channel moves toward its
/// end.
pub proof fn lemma_leaves_strictly_graded(
    order: nat,
    turn: i32,
    outer: i32,
    start: Color,
    end: Color,
    ch: Channel,
    i: int,
    j: int,
)
    requires
        0 <= i < j < segment_count(order),
        i % 2 == 0,
        j % 2 == 0,
        span(start.channel(ch), end.channel(ch)) >= pow2(order),
    ensures
        strictly_toward(
            start.channel(ch),
            end.channel(ch),
            curve(order, turn, outer, start, end)[i].color.channel(ch),
            curve(order, turn, outer, start, end)[j].color.channel(ch),
        ),
    decreases order,
{
    if order == 0 {
        lemma_curve_len(order, turn, outer, start, end);
    } else {
        let below = (order - 1) as nat;
        let half = segment_count(below) as int;
        let mid = start.midpoint_spec(end);
        let whole = curve(order, turn, outer, start, end);
        let first = curve(below, FIRST_SUB_TURN, outer, start, mid);
        let second = curve(below, SECOND_SUB_TURN, outer, mid, end);
        let (a, m, b) = (start.channel(ch), mid.channel(ch), end.channel(ch));
        let (x, y) = (whole[i].color.channel(ch), whole[j].color.channel(ch));
        assert(span(a, m) >= pow2(below) && span(m, b) >= pow2(below) && (a < b ==> a < m < b) && (a
            > b ==> a > m > b)) by {
            lemma_pow2_unfold(order);
            lemma_pow2_pos(below);
            lemma_halves_span(start, end, ch, pow2(below) as int);
        }
        assert(half % 2 == 1 && segment_count(order) == 2 * half + 1) by {
            lemma_curve_len(order, turn, outer, start, end);
            lemma_curve_len(below, FIRST_SUB_TURN, outer, start, mid);
        }
        if j < half {
            assert(x == first[i].color.channel(ch) && y == first[j].color.channel(ch)) by {
                lemma_curve_index(order, turn, outer, start, end, i);
                lemma_curve_index(order, turn, outer, start, end, j);
            }
            assert(strictly_toward(a, m, x, y)) by {
                lemma_leaves_strictly_graded(below, FIRST_SUB_TURN, outer, start, mid, ch, i, j);
            }
        } else if i > half {
            let (k, l) = (i - half - 1, j - half - 1);
            assert(x == second[k].color.channel(ch) && y == second[l].color.channel(ch)) by {
                lemma_curve_index(order, turn, outer, start, end, i);
                lemma_curve_index(order, turn, outer, start, end, j);
            }
            assert(strictly_toward(m, b, x, y)) by {
                lemma_leaves_strictly_graded(below, SECOND_SUB_TURN, outer, mid, end, ch, k, l);
            }
        } else {
            // `i` is a leaf of the first half and `j` one of the second:
            // the midpoint lies between them
            let l = j - half - 1;
            assert(x == first[i].color.channel(ch) && y == second[l].color.channel(ch)) by {
                lemma_curve_index(order, turn, outer, start, end, i);
                lemma_curve_index(order, turn, outer, start, end, j);
            }
            assert(strictly_toward(a, m, x, m)) by {
                lemma_leaf_before_end(below, FIRST_SUB_TURN, outer, start, mid, ch, i);
            }
            assert(ordered_toward(m, b, m, y)) by {
                lemma_within_at(below, SECOND_SUB_TURN, outer, mid, end, ch, l);
            }
        }
    }
}

} // verus!
