//! The turtle executor: a pen state machine that replays segments.
//!
//! The executor turns each segment into three pen commands (set the colour,
//! turn, move forward) and keeps the pen's state as it goes. The commands
//! are values: whoever owns the canvas performs them in the order given. The
//! strokes that a run of commands leaves on the canvas are part of the
//! model, so what a drawing shows can be stated and proved here.

use crate::curve::{
    curve, joint, lemma_curve_interleaved, lemma_curve_len, Color, Segment, FIRST_SUB_TURN,
    LEAF_DISTANCE, SECOND_SUB_TURN,
};
use vstd::arithmetic::power2::{lemma2_to64, lemma_pow2_unfold, pow2};
use vstd::prelude::*;

verus! {

/// The degrees in a full turn. Headings are kept in `0..FULL_TURN`.
pub const FULL_TURN: i32 = 360;

/// How fast the pen moves, from slowest to instant.
#[derive(Clone, Copy, Debug, PartialEq, Eq, Structural)]
pub enum Speed {
    Slowest,
    Slower,
    Slow,
    Normal,
    Fast,
    Faster,
    Instant,
}

/// A primitive pen operation. Turns are in degrees, `Right` clockwise; a
/// negative angle turns the other way.
#[derive(Clone, Copy, Debug, PartialEq, Eq, Structural)]
pub enum Command {
    PenUp,
    PenDown,
    SetPenColor(Color),
    SetSpeed(Speed),
    Right(i32),
    Left(i32),
    Forward(u32),
    Backward(u32),
    Hide,
}

/// A visible line: the pen moved `length` units in `direction` while down.
#[derive(Clone, Copy, Debug, PartialEq, Eq, Structural)]
pub struct Stroke {
    pub direction: i32,
    pub length: u32,
    pub color: Color,
}

/// Where the pen is put before the first segment: it is lifted, moved back
/// by `retreat`, turned right by `turn`, moved forward by `advance` and
/// lowered; `speed`, if any, is set last.
#[derive(Clone, Copy, Debug, PartialEq, Eq)]
pub struct Setup {
    pub retreat: u32,
    pub turn: i32,
    pub advance: u32,
    pub speed: Option<Speed>,
}

/// The pen's state as contracts see it.
pub struct TurtleModel {
    pub heading: int,
    pub pen_down: bool,
    pub color: Color,
    pub speed: Speed,
    pub visible: bool,
}

/// The pen's state: its heading in degrees clockwise from where it first
/// pointed, whether it is down, its colour and speed, and whether the
/// cursor shows.
#[derive(Clone, Copy, Debug)]
pub struct TurtleState {
    heading: i32,
    pen_down: bool,
    color: Color,
    speed: Speed,
    visible: bool,
}

/// The heading that stands for `angle`: the one value in `0..FULL_TURN`
/// that differs from it by whole turns.
pub open spec fn normalize(angle: int) -> int {
    angle % (FULL_TURN as int)
}

/// The three commands that perform one segment, in the order they are
/// issued: colour first, then the turn, then the move.
pub open spec fn segment_commands(segment: Segment) -> Seq<Command> {
    seq![
        Command::SetPenColor(segment.color),
        Command::Right(segment.turn_delta),
        Command::Forward(segment.distance),
    ]
}

/// The commands that perform `segments` one after another.
pub open spec fn plan_spec(segments: Seq<Segment>) -> Seq<Command>
    decreases segments.len(),
{
    if segments.len() == 0 {
        seq![]
    } else {
        plan_spec(segments.drop_last()) + segment_commands(segments.last())
    }
}

/// The sum of the turns of `segments`, in degrees.
pub open spec fn total_turn(segments: Seq<Segment>) -> int
    decreases segments.len(),
{
    if segments.len() == 0 {
        0
    } else {
        total_turn(segments.drop_last()) + segments.last().turn_delta
    }
}

/// The strokes that a pen leaves when it starts at `heading`, is down, and
/// performs `segments`: one for every segment that moves, pointing where the
/// turns so far have left the pen, in the segment's own colour.
pub open spec fn segment_strokes(heading: int, segments: Seq<Segment>) -> Seq<Stroke>
    decreases segments.len(),
{
    if segments.len() == 0 {
        seq![]
    } else {
        let earlier = segment_strokes(heading, segments.drop_last());
        let last = segments.last();
        if last.distance > 0 {
            earlier.push(
                Stroke {
                    direction: normalize(heading + total_turn(segments)) as i32,
                    length: last.distance,
                    color: last.color,
                },
            )
        } else {
            earlier
        }
    }
}

/// The commands that put the pen in place before the first segment.
pub open spec fn setup_commands(setup: Setup) -> Seq<Command> {
    let placed = seq![
        Command::PenUp,
        Command::Backward(setup.retreat),
        Command::Right(setup.turn),
        Command::Forward(setup.advance),
        Command::PenDown,
    ];
    match setup.speed {
        Some(speed) => placed.push(Command::SetSpeed(speed)),
        None => placed,
    }
}

/// The commands of a whole drawing: the setup, the segments in order, and
/// at the end the command that hides the cursor.
pub open spec fn session_spec(setup: Setup, segments: Seq<Segment>) -> Seq<Command> {
    setup_commands(setup) + plan_spec(segments) + seq![Command::Hide]
}

impl TurtleModel {
    /// A fresh pen: pointing at heading 0, down, black, at normal speed,
    /// with the cursor showing.
    pub open spec fn initial() -> TurtleModel {
        TurtleModel {
            heading: 0,
            pen_down: true,
            color: Color { red: 0, green: 0, blue: 0 },
            speed: Speed::Normal,
            visible: true,
        }
    }

    /// The heading is normalized.
    pub open spec fn well_formed(self) -> bool {
        0 <= self.heading < FULL_TURN
    }

    /// The state after `command`.
    pub open spec fn apply(self, command: Command) -> TurtleModel {
        match command {
            Command::PenUp => TurtleModel { pen_down: false, ..self },
            Command::PenDown => TurtleModel { pen_down: true, ..self },
            Command::SetPenColor(color) => TurtleModel { color, ..self },
            Command::SetSpeed(speed) => TurtleModel { speed, ..self },
            Command::Right(angle) => TurtleModel {
                heading: normalize(self.heading + angle),
                ..self
            },
            Command::Left(angle) => TurtleModel { heading: normalize(self.heading - angle), ..self },
            Command::Forward(_) => self,
            Command::Backward(_) => self,
            Command::Hide => TurtleModel { visible: false, ..self },
        }
    }

    /// The stroke that `command` draws in this state, if it draws one: a
    /// move of at least one unit with the pen down. A move backward draws
    /// in the direction opposite to the heading.
    pub open spec fn stroke(self, command: Command) -> Option<Stroke> {
        match command {
            Command::Forward(distance) if self.pen_down && distance > 0 => Some(
                Stroke { direction: self.heading as i32, length: distance, color: self.color },
            ),
            Command::Backward(distance) if self.pen_down && distance > 0 => Some(
                Stroke {
                    direction: normalize(self.heading + 180) as i32,
                    length: distance,
                    color: self.color,
                },
            ),
            _ => None,
        }
    }

    /// The state after `commands`, performed in order.
    pub open spec fn run(self, commands: Seq<Command>) -> TurtleModel
        decreases commands.len(),
    {
        if commands.len() == 0 {
            self
        } else {
            self.run(commands.drop_last()).apply(commands.last())
        }
    }

    /// The strokes that `commands` draw, in the order they are drawn.
    pub open spec fn strokes(self, commands: Seq<Command>) -> Seq<Stroke>
        decreases commands.len(),
    {
        if commands.len() == 0 {
            seq![]
        } else {
            let earlier = self.strokes(commands.drop_last());
            match self.run(commands.drop_last()).stroke(commands.last()) {
                Some(stroke) => earlier.push(stroke),
                None => earlier,
            }
        }
    }
}

impl Speed {
    /// The word for this speed.
    pub fn name(self) -> (name: &'static str)
        ensures
            name@ == match self {
                Speed::Slowest => "slowest"@,
                Speed::Slower => "slower"@,
                Speed::Slow => "slow"@,
                Speed::Normal => "normal"@,
                Speed::Fast => "fast"@,
                Speed::Faster => "faster"@,
                Speed::Instant => "instant"@,
            },
    {
        match self {
            Speed::Slowest => "slowest",
            Speed::Slower => "slower",
            Speed::Slow => "slow",
            Speed::Normal => "normal",
            Speed::Fast => "fast",
            Speed::Faster => "faster",
            Speed::Instant => "instant",
        }
    }
}

impl View for TurtleState {
    type V = TurtleModel;

    closed spec fn view(&self) -> TurtleModel {
        TurtleModel {
            heading: self.heading as int,
            pen_down: self.pen_down,
            color: self.color,
            speed: self.speed,
            visible: self.visible,
        }
    }
}

/// The heading reached from `heading` by turning right by `angle`.
fn turned(heading: i32, angle: i64) -> (reached: i32)
    requires
        0 <= heading < FULL_TURN,
        -0x8000_0000 <= angle <= 0x8000_0000,
    ensures
        reached == normalize(heading + angle),
{
    // 6_000_000 whole turns lift every sum above zero without changing
    // the heading it stands for
    let turn: i64 = FULL_TURN as i64;
    let lifted: i64 = heading as i64 + angle + 6_000_000 * turn;
    let reached: i64 = lifted % turn;
    reached as i32
}

impl TurtleState {
    #[verifier::type_invariant]
    spec fn normalized(self) -> bool {
        0 <= self.heading < FULL_TURN
    }

    /// A fresh pen.
    pub fn new() -> (state: TurtleState)
        ensures
            state@ == TurtleModel::initial(),
            state@.well_formed(),
    {
        TurtleState {
            heading: 0,
            pen_down: true,
            color: Color { red: 0, green: 0, blue: 0 },
            speed: Speed::Normal,
            visible: true,
        }
    }

    /// The heading, in degrees clockwise from where the pen first pointed.
    pub fn heading(&self) -> (heading: i32)
        ensures
            heading == self@.heading,
            0 <= heading < FULL_TURN,
    {
        proof {
            use_type_invariant(self);
        }
        self.heading
    }

    /// Whether the pen is down.
    pub fn is_pen_down(&self) -> (down: bool)
        ensures
            down == self@.pen_down,
    {
        self.pen_down
    }

    /// The pen's colour.
    pub fn color(&self) -> (color: Color)
        ensures
            color == self@.color,
    {
        self.color
    }

    /// The pen's speed.
    pub fn speed(&self) -> (speed: Speed)
        ensures
            speed == self@.speed,
    {
        self.speed
    }

    /// Whether the cursor shows.
    pub fn is_visible(&self) -> (visible: bool)
        ensures
            visible == self@.visible,
    {
        self.visible
    }

    /// Performs one command and returns the stroke it draws, if any.
    pub fn apply(&mut self, command: Command) -> (stroke: Option<Stroke>)
        ensures
            final(self)@ == old(self)@.apply(command),
            final(self)@.well_formed(),
            stroke == old(self)@.stroke(command),
    {
        proof {
            use_type_invariant(&*self);
        }
        match command {
            Command::PenUp => {
                self.pen_down = false;
                None
            },
            Command::PenDown => {
                self.pen_down = true;
                None
            },
            Command::SetPenColor(color) => {
                self.color = color;
                None
            },
            Command::SetSpeed(speed) => {
                self.speed = speed;
                None
            },
            Command::Right(angle) => {
                self.heading = turned(self.heading, angle as i64);
                None
            },
            Command::Left(angle) => {
                self.heading = turned(self.heading, -(angle as i64));
                None
            },
            Command::Forward(distance) => {
                if self.pen_down && distance > 0 {
                    Some(Stroke { direction: self.heading, length: distance, color: self.color })
                } else {
                    None
                }
            },
            Command::Backward(distance) => {
                if self.pen_down && distance > 0 {
                    Some(
                        Stroke {
                            direction: turned(self.heading, 180),
                            length: distance,
                            color: self.color,
                        },
                    )
                } else {
                    None
                }
            },
            Command::Hide => {
                self.visible = false;
                None
            },
        }
    }

    /// Performs `commands` in order and returns the strokes they draw.
    pub fn run(&mut self, commands: &Vec<Command>) -> (strokes: Vec<Stroke>)
        ensures
            final(self)@ == old(self)@.run(commands@),
            final(self)@.well_formed(),
            strokes@ == old(self)@.strokes(commands@),
    {
        let mut strokes: Vec<Stroke> = Vec::new();
        let mut i: usize = 0;
        proof {
            use_type_invariant(&*self);
        }
        while i < commands.len()
            invariant
                i <= commands.len(),
                self@ == old(self)@.run(commands@.take(i as int)),
                self@.well_formed(),
                strokes@ == old(self)@.strokes(commands@.take(i as int)),
            decreases commands.len() - i,
        {
            proof {
                let next = commands@.take(i + 1);
                assert(next.drop_last() =~= commands@.take(i as int));
                assert(next.last() == commands@[i as int]);
            }
            match self.apply(commands[i]) {
                Some(stroke) => strokes.push(stroke),
                None => {},
            }
            i += 1;
        }
        proof {
            assert(commands@.take(i as int) =~= commands@);
        }
        strokes
    }

    /// Replays `segments`: performs the commands of each segment in order
    /// and returns them, for the canvas to carry out. There must be no more
    /// segments than a vector can hold the commands of.
    pub fn execute(&mut self, segments: &Vec<Segment>) -> (commands: Vec<Command>)
        requires
            plan_spec(segments@).len() <= usize::MAX,
        ensures
            commands@ == plan_spec(segments@),
            final(self)@ == old(self)@.run(plan_spec(segments@)),
            final(self)@.well_formed(),
    {
        let commands = plan(segments);
        self.run(&commands);
        commands
    }

    /// Performs a whole drawing: puts the pen in place as `setup` says,
    /// replays `segments` and hides the cursor. Returns the commands, for
    /// the canvas to carry out. There must be no more segments than a vector
    /// can hold the commands of.
    pub fn draw(&mut self, setup: Setup, segments: &Vec<Segment>) -> (commands: Vec<Command>)
        requires
            session_spec(setup, segments@).len() <= usize::MAX,
        ensures
            commands@ == session_spec(setup, segments@),
            final(self)@ == old(self)@.run(session_spec(setup, segments@)),
            final(self)@.well_formed(),
    {
        let commands = session(setup, segments);
        self.run(&commands);
        commands
    }
}

/// The commands that perform `segments` one after another: for each
/// segment its colour, its turn and its move, in that order. There must be
/// no more segments than a vector can hold the commands of.
pub fn plan(segments: &Vec<Segment>) -> (commands: Vec<Command>)
    requires
        plan_spec(segments@).len() <= usize::MAX,
    ensures
        commands@ == plan_spec(segments@),
{
    let mut commands: Vec<Command> = Vec::new();
    append_plan(&mut commands, segments);
    commands
}

/// The commands of a whole drawing: the setup, the segments in order, and
/// at the end the command that hides the cursor. There must be no more
/// segments than a vector can hold the commands of.
pub fn session(setup: Setup, segments: &Vec<Segment>) -> (commands: Vec<Command>)
    requires
        session_spec(setup, segments@).len() <= usize::MAX,
    ensures
        commands@ == session_spec(setup, segments@),
{
    let mut commands: Vec<Command> = Vec::new();
    commands.push(Command::PenUp);
    commands.push(Command::Backward(setup.retreat));
    commands.push(Command::Right(setup.turn));
    commands.push(Command::Forward(setup.advance));
    commands.push(Command::PenDown);
    match setup.speed {
        Some(speed) => commands.push(Command::SetSpeed(speed)),
        None => {},
    }
    assert(commands@ =~= setup_commands(setup));
    append_plan(&mut commands, segments);
    commands.push(Command::Hide);
    commands
}

/// Appends the commands of `segments` to `commands`.
fn append_plan(commands: &mut Vec<Command>, segments: &Vec<Segment>)
    ensures
        final(commands)@ == old(commands)@ + plan_spec(segments@),
{
    let mut i: usize = 0;
    assert(commands@ =~= old(commands)@ + plan_spec(segments@.take(0)));
    while i < segments.len()
        invariant
            i <= segments.len(),
            commands@ == old(commands)@ + plan_spec(segments@.take(i as int)),
        decreases segments.len() - i,
    {
        let segment = segments[i];
        proof {
            let next = segments@.take(i + 1);
            assert(next.drop_last() =~= segments@.take(i as int));
            assert(next.last() == segment);
        }
        let ghost before = commands@;
        commands.push(Command::SetPenColor(segment.color));
        commands.push(Command::Right(segment.turn_delta));
        commands.push(Command::Forward(segment.distance));
        assert(commands@ =~= before + segment_commands(segment));
        assert(commands@ =~= old(commands)@ + plan_spec(segments@.take(i + 1)));
        i += 1;
    }
    proof {
        assert(segments@.take(i as int) =~= segments@);
    }
}

/// Performing `first + second` is performing `first` and then `second`:
/// the state is carried over, and the strokes follow one another.
pub proof fn lemma_run_concat(model: TurtleModel, first: Seq<Command>, second: Seq<Command>)
    ensures
        model.run(first + second) == model.run(first).run(second),
        model.strokes(first + second) == model.strokes(first) + model.run(first).strokes(second),
    decreases second.len(),
{
    if second.len() == 0 {
        assert(first + second =~= first);
        assert(model.strokes(first) + model.run(first).strokes(second) =~= model.strokes(first));
    } else {
        let whole = first + second;
        assert(whole.drop_last() =~= first + second.drop_last());
        assert(whole.last() == second.last());
        lemma_run_concat(model, first, second.drop_last());
        let earlier = model.run(first).strokes(second.drop_last());
        match model.run(whole.drop_last()).stroke(whole.last()) {
            Some(stroke) => {
                assert(model.strokes(whole) =~= model.strokes(first) + earlier.push(stroke));
            },
            None => {},
        }
    }
}

/// Performing one more command: the state after `commands` takes
/// `command`, and the stroke it draws, if any, comes last.
pub proof fn lemma_run_push(model: TurtleModel, commands: Seq<Command>, command: Command)
    ensures
        model.run(Seq::<Command>::empty()) == model,
        model.strokes(Seq::<Command>::empty()) == Seq::<Stroke>::empty(),
        model.run(commands.push(command)) == model.run(commands).apply(command),
        model.strokes(commands.push(command)) == match model.run(commands).stroke(command) {
            Some(stroke) => model.strokes(commands).push(stroke),
            None => model.strokes(commands),
        },
{
    assert(commands.push(command).drop_last() =~= commands);
}

/// No command takes a well-formed state to one that is not.
pub proof fn lemma_run_well_formed(model: TurtleModel, commands: Seq<Command>)
    requires
        model.well_formed(),
    ensures
        model.run(commands).well_formed(),
    decreases commands.len(),
{
    if commands.len() > 0 {
        lemma_run_well_formed(model, commands.drop_last());
    }
}

/// Segments are performed strictly in order, three commands each: segment
/// `k` sets its colour at position `3k`, turns at `3k + 1` and moves at
/// `3k + 2`, so every move follows the colour and the turn of its own
/// segment.
pub proof fn lemma_plan_order(segments: Seq<Segment>)
    ensures
        plan_spec(segments).len() == 3 * segments.len(),
        forall|k: int|
            0 <= k < segments.len() ==> {
                &&& plan_spec(segments)[3 * k] == Command::SetPenColor(
                    (#[trigger] segments[k]).color,
                )
                &&& plan_spec(segments)[3 * k + 1] == Command::Right(segments[k].turn_delta)
                &&& plan_spec(segments)[3 * k + 2] == Command::Forward(segments[k].distance)
            },
    decreases segments.len(),
{
    if segments.len() > 0 {
        lemma_plan_order(segments.drop_last());
        assert forall|k: int| 0 <= k < segments.len() implies {
            &&& plan_spec(segments)[3 * k] == Command::SetPenColor((#[trigger] segments[k]).color)
            &&& plan_spec(segments)[3 * k + 1] == Command::Right(segments[k].turn_delta)
            &&& plan_spec(segments)[3 * k + 2] == Command::Forward(segments[k].distance)
        } by {
            if k < segments.len() - 1 {
                assert(segments.drop_last()[k] == segments[k]);
            }
        }
    }
}

/// A whole drawing has three commands for each segment and six more, or
/// seven where the setup sets a speed.
pub proof fn lemma_session_len(setup: Setup, segments: Seq<Segment>)
    ensures
        session_spec(setup, segments).len() == 3 * segments.len() + if setup.speed is Some {
            7int
        } else {
            6int
        },
{
    lemma_plan_order(segments);
}

/// What one segment does to the pen: it takes the segment's colour and
/// turns by its turn. It draws a stroke if the pen is down and the segment
/// moves.
pub proof fn lemma_segment_run(model: TurtleModel, segment: Segment)
    ensures
        model.run(segment_commands(segment)) == (TurtleModel {
            heading: normalize(model.heading + segment.turn_delta),
            color: segment.color,
            ..model
        }),
        model.strokes(segment_commands(segment)) == if model.pen_down && segment.distance > 0 {
            seq![
                Stroke {
                    direction: normalize(model.heading + segment.turn_delta) as i32,
                    length: segment.distance,
                    color: segment.color,
                },
            ]
        } else {
            seq![]
        },
{
    let none = Seq::<Command>::empty();
    let colored = none.push(Command::SetPenColor(segment.color));
    let turned = colored.push(Command::Right(segment.turn_delta));
    let moved = turned.push(Command::Forward(segment.distance));
    assert(moved =~= segment_commands(segment));
    lemma_run_push(model, none, Command::SetPenColor(segment.color));
    lemma_run_push(model, colored, Command::Right(segment.turn_delta));
    lemma_run_push(model, turned, Command::Forward(segment.distance));
}

/// Replaying segments turns the pen by the sum of their turns and leaves
/// it in the colour of the last one; pen, speed and cursor stay as they
/// were.
pub proof fn lemma_plan_run(model: TurtleModel, segments: Seq<Segment>)
    requires
        model.well_formed(),
    ensures
        model.run(plan_spec(segments)) == (TurtleModel {
            heading: normalize(model.heading + total_turn(segments)),
            color: if segments.len() > 0 {
                segments.last().color
            } else {
                model.color
            },
            ..model
        }),
    decreases segments.len(),
{
    if segments.len() > 0 {
        let earlier = segments.drop_last();
        let last = segments.last();
        let before = model.run(plan_spec(earlier));
        lemma_plan_run(model, earlier);
        lemma_run_concat(model, plan_spec(earlier), segment_commands(last));
        lemma_segment_run(before, last);
        assert(normalize(before.heading + last.turn_delta) == normalize(
            model.heading + total_turn(segments),
        )) by {
            lemma_normalize_sum(model.heading + total_turn(earlier), last.turn_delta as int);
        }
    } else {
        assert(normalize(model.heading + total_turn(segments)) == model.heading);
    }
}

/// With the pen down, replaying segments draws exactly the strokes of
/// `segment_strokes`; with the pen up it draws nothing.
pub proof fn lemma_plan_strokes(model: TurtleModel, segments: Seq<Segment>)
    requires
        model.well_formed(),
    ensures
        model.strokes(plan_spec(segments)) == if model.pen_down {
            segment_strokes(model.heading, segments)
        } else {
            seq![]
        },
    decreases segments.len(),
{
    if segments.len() > 0 {
        let earlier = segments.drop_last();
        let last = segments.last();
        let before = model.run(plan_spec(earlier));
        lemma_plan_strokes(model, earlier);
        lemma_run_concat(model, plan_spec(earlier), segment_commands(last));
        assert(before.pen_down == model.pen_down && before.heading == normalize(
            model.heading + total_turn(earlier),
        )) by {
            lemma_plan_run(model, earlier);
        }
        assert(normalize(before.heading + last.turn_delta) == normalize(
            model.heading + total_turn(segments),
        )) by {
            lemma_normalize_sum(model.heading + total_turn(earlier), last.turn_delta as int);
        }
        lemma_segment_run(before, last);
        if model.pen_down && last.distance > 0 {
            assert(model.strokes(plan_spec(segments)) =~= segment_strokes(
                model.heading,
                segments,
            ));
        } else {
            assert(model.strokes(plan_spec(segments)) =~= model.strokes(plan_spec(earlier)));
        }
    }
}

/// A whole drawing shows the strokes of its segments and nothing else: the
/// setup moves with the pen up, the segments are drawn from the heading
/// that the setup's turn leaves, and at the end the pen is down, turned by
/// all the turns together, and the cursor is hidden.
pub proof fn lemma_session(model: TurtleModel, setup: Setup, segments: Seq<Segment>)
    requires
        model.well_formed(),
    ensures
        model.strokes(session_spec(setup, segments)) == segment_strokes(
            normalize(model.heading + setup.turn),
            segments,
        ),
        model.run(session_spec(setup, segments)) == (TurtleModel {
            heading: normalize(model.heading + setup.turn + total_turn(segments)),
            pen_down: true,
            color: if segments.len() > 0 {
                segments.last().color
            } else {
                model.color
            },
            speed: match setup.speed {
                Some(speed) => speed,
                None => model.speed,
            },
            visible: false,
        }),
{
    let placed = model.run(setup_commands(setup));
    let body = setup_commands(setup) + plan_spec(segments);
    lemma_setup_run(model, setup);
    lemma_run_concat(model, setup_commands(setup), plan_spec(segments));
    assert(model.strokes(body) == segment_strokes(placed.heading, segments)) by {
        lemma_plan_strokes(placed, segments);
        assert(model.strokes(setup_commands(setup)) + placed.strokes(plan_spec(segments))
            =~= placed.strokes(plan_spec(segments)));
    }
    assert(model.run(body).heading == normalize(
        model.heading + setup.turn + total_turn(segments),
    )) by {
        lemma_plan_run(placed, segments);
        lemma_normalize_sum(model.heading + setup.turn, total_turn(segments));
    }
    assert(model.run(body) == (TurtleModel {
        heading: model.run(body).heading,
        color: if segments.len() > 0 {
            segments.last().color
        } else {
            model.color
        },
        ..placed
    })) by {
        lemma_plan_run(placed, segments);
    }
    lemma_run_push(model, body, Command::Hide);
    assert(body.push(Command::Hide) =~= session_spec(setup, segments));
}

/// Whole turns taken out of a part of a sum are taken out of the sum.
proof fn lemma_normalize_sum(a: int, b: int)
    ensures
        normalize(normalize(a) + b) == normalize(a + b),
{
}

/// The setup draws nothing and leaves the pen down, turned by the setup's
/// turn, at the setup's speed if it names one.
proof fn lemma_setup_run(model: TurtleModel, setup: Setup)
    ensures
        model.strokes(setup_commands(setup)) == Seq::<Stroke>::empty(),
        model.run(setup_commands(setup)) == (TurtleModel {
            heading: normalize(model.heading + setup.turn),
            pen_down: true,
            speed: match setup.speed {
                Some(speed) => speed,
                None => model.speed,
            },
            ..model
        }),
{
    let c0 = Seq::<Command>::empty();
    let c1 = c0.push(Command::PenUp);
    let c2 = c1.push(Command::Backward(setup.retreat));
    let c3 = c2.push(Command::Right(setup.turn));
    let c4 = c3.push(Command::Forward(setup.advance));
    let c5 = c4.push(Command::PenDown);
    lemma_run_push(model, c0, Command::PenUp);
    lemma_run_push(model, c1, Command::Backward(setup.retreat));
    lemma_run_push(model, c2, Command::Right(setup.turn));
    lemma_run_push(model, c3, Command::Forward(setup.advance));
    lemma_run_push(model, c4, Command::PenDown);
    match setup.speed {
        Some(speed) => {
            lemma_run_push(model, c5, Command::SetSpeed(speed));
            assert(c5.push(Command::SetSpeed(speed)) =~= setup_commands(setup));
        },
        None => {
            assert(c5 =~= setup_commands(setup));
        },
    }
}

/// The turns of `first + second` add up.
pub proof fn lemma_total_turn_concat(first: Seq<Segment>, second: Seq<Segment>)
    ensures
        total_turn(first + second) == total_turn(first) + total_turn(second),
    decreases second.len(),
{
    if second.len() == 0 {
        assert(first + second =~= first);
    } else {
        assert((first + second).drop_last() =~= first + second.drop_last());
        lemma_total_turn_concat(first, second.drop_last());
    }
}

/// A curve of order 0 turns by its opening turn. Above order 0 the leaves'
/// turns cancel in pairs, so the curve turns by its outer turn once for
/// each of its `2^order - 1` joints.
pub proof fn lemma_curve_total_turn(order: nat, turn: i32, outer: i32, start: Color, end: Color)
    ensures
        total_turn(curve(order, turn, outer, start, end)) == if order == 0 {
            turn as int
        } else {
            (pow2(order) - 1) * outer
        },
    decreases order,
{
    let whole = curve(order, turn, outer, start, end);
    if order == 0 {
        assert(whole.drop_last() =~= Seq::<Segment>::empty());
        assert(total_turn(whole.drop_last()) == 0);
    } else {
        let below = (order - 1) as nat;
        let mid = start.midpoint_spec(end);
        let first = curve(below, FIRST_SUB_TURN, outer, start, mid);
        let second = curve(below, SECOND_SUB_TURN, outer, mid, end);
        let middle = seq![joint(outer, mid)];
        assert(whole == first + middle + second);
        lemma_curve_total_turn(below, FIRST_SUB_TURN, outer, start, mid);
        lemma_curve_total_turn(below, SECOND_SUB_TURN, outer, mid, end);
        lemma_total_turn_concat(first, middle);
        lemma_total_turn_concat(first + middle, second);
        assert(total_turn(middle) == outer) by {
            assert(middle.drop_last() =~= Seq::<Segment>::empty());
            assert(total_turn(middle.drop_last()) == 0);
        }
        assert(total_turn(whole) == total_turn(first) + outer + total_turn(second));
        lemma_pow2_unfold(order);
        if below > 0 {
            let p = pow2(below) as int;
            assert(pow2(order) == 2 * p);
            assert((p - 1) * outer + outer + (p - 1) * outer == (2 * p - 1) * outer)
                by (nonlinear_arith);
        } else {
            lemma2_to64();
            assert(pow2(order) == 2);
            assert((2 - 1) * outer == outer) by (nonlinear_arith);
        }
    }
}

/// Where leaves and joints alternate, the pen draws one stroke per leaf and
/// none for a joint: stroke `k` belongs to segment `2k`, has its length and
/// colour, and points where the turns up to and including that segment
/// have left the pen.
pub proof fn lemma_alternating_strokes(heading: int, segments: Seq<Segment>)
    requires
        forall|i: int|
            0 <= i < segments.len() ==> ((#[trigger] segments[i]).distance > 0 <==> i % 2 == 0),
    ensures
        segment_strokes(heading, segments).len() == (segments.len() + 1) / 2,
        forall|k: int|
            0 <= k < (segments.len() + 1) / 2 ==> #[trigger] segment_strokes(heading, segments)[k]
                == (Stroke {
                direction: normalize(heading + total_turn(segments.take(2 * k + 1))) as i32,
                length: segments[2 * k].distance,
                color: segments[2 * k].color,
            }),
    decreases segments.len(),
{
    if segments.len() > 0 {
        let earlier = segments.drop_last();
        let n = segments.len() as int;
        assert forall|i: int| 0 <= i < earlier.len() implies ((#[trigger] earlier[i]).distance > 0
            <==> i % 2 == 0) by {
            assert(earlier[i] == segments[i]);
        }
        lemma_alternating_strokes(heading, earlier);
        assert(segments[n - 1] == segments.last());
        assert forall|k: int| 0 <= k < (n + 1) / 2 implies #[trigger] segment_strokes(
            heading,
            segments,
        )[k] == (Stroke {
            direction: normalize(heading + total_turn(segments.take(2 * k + 1))) as i32,
            length: segments[2 * k].distance,
            color: segments[2 * k].color,
        }) by {
            if 2 * k + 1 == n {
                assert(segments.take(n) =~= segments);
            } else {
                assert(earlier.take(2 * k + 1) =~= segments.take(2 * k + 1));
                assert(earlier[2 * k] == segments[2 * k]);
            }
        }
    }
}

/// With the pen down, a curve of order `order` is drawn as `2^order`
/// strokes of one unit each, one per leaf, each in its leaf's colour.
pub proof fn lemma_curve_strokes(
    heading: int,
    order: nat,
    turn: i32,
    outer: i32,
    start: Color,
    end: Color,
)
    ensures
        ({
            let segments = curve(order, turn, outer, start, end);
            let strokes = segment_strokes(heading, segments);
            &&& strokes.len() == pow2(order)
            &&& forall|k: int|
                0 <= k < pow2(order) ==> #[trigger] strokes[k] == (Stroke {
                    direction: normalize(heading + total_turn(segments.take(2 * k + 1))) as i32,
                    length: LEAF_DISTANCE,
                    color: segments[2 * k].color,
                })
        }),
{
    let segments = curve(order, turn, outer, start, end);
    lemma_curve_len(order, turn, outer, start, end);
    lemma_curve_interleaved(order, turn, outer, start, end);
    lemma_pow2_unfold(order + 1);
    lemma_alternating_strokes(heading, segments);
}

} // verus!
