use vstd::prelude::*;
use crate::image::{Color, DrawCommand, Pixel};

verus! {

/// How wide and how high every bitmap is.
pub const SIZE: i32 = 600;

/// The most bitmaps the stack holds.
pub const MAX_BITMAPS: usize = 10;

/// A place on a bitmap.
#[derive(Debug, Clone, Copy, PartialEq, Eq, Structural)]
pub struct Position {
    pub x: i32,
    pub y: i32,
}

/// The way the drawer faces.
#[derive(Debug, Clone, Copy, PartialEq, Eq, Structural)]
pub enum Direction {
    North,
    East,
    South,
    West,
}

impl Direction {
    /// The direction a quarter turn to the right of this one.
    pub open spec fn clockwise(self) -> Direction {
        match self {
            Direction::North => Direction::East,
            Direction::East => Direction::South,
            Direction::South => Direction::West,
            Direction::West => Direction::North,
        }
    }

    /// The direction a quarter turn to the left of this one.
    pub open spec fn counter_clockwise(self) -> Direction {
        match self {
            Direction::North => Direction::West,
            Direction::East => Direction::North,
            Direction::South => Direction::East,
            Direction::West => Direction::South,
        }
    }

    pub fn turn_c(&self) -> (r: Self)
        ensures
            r == self.clockwise(),
    {
        match self {
            Direction::North => Direction::East,
            Direction::East => Direction::South,
            Direction::South => Direction::West,
            Direction::West => Direction::North,
        }
    }

    pub fn turn_cc(&self) -> (r: Self)
        ensures
            r == self.counter_clockwise(),
    {
        match self {
            Direction::North => Direction::West,
            Direction::East => Direction::North,
            Direction::South => Direction::East,
            Direction::West => Direction::South,
        }
    }
}

/// The parts of a bucket that count towards one channel of the pixel it
/// mixes: channel 0, 1 and 2 are the red, green and blue of its colours,
/// channel 3 the levels of its alpha values.
pub open spec fn channel_values(bucket: Seq<Color>, channel: int) -> Seq<u8>
    decreases bucket.len(),
{
    if bucket.len() == 0 {
        Seq::<u8>::empty()
    } else {
        let before = channel_values(bucket.drop_last(), channel);
        match bucket.last() {
            Color::Rgb(rgb) => if channel < 3 {
                before.push(rgb.channels()[channel])
            } else {
                before
            },
            Color::Alpha(alpha) => if channel < 3 {
                before
            } else {
                before.push(alpha.level())
            },
        }
    }
}

/// The sum of a row of values.
pub open spec fn total(values: Seq<u8>) -> nat
    decreases values.len(),
{
    if values.len() == 0 {
        0
    } else {
        total(values.drop_last()) + values.last() as nat
    }
}

/// The average of a row of values, rounded down; of no values, `default`.
pub open spec fn average(values: Seq<u8>, default: nat) -> nat {
    if values.len() == 0 {
        default
    } else {
        total(values) / values.len()
    }
}

/// The pixel that a bucket mixes. Its alpha is the average of the alpha
/// values in the bucket, 255 if there are none. Each of red, green and blue
/// is the average of that channel over the colours in the bucket, 0 if there
/// are none, scaled by the alpha.
pub open spec fn pixel_of(bucket: Seq<Color>) -> Seq<u8> {
    let alpha = average(channel_values(bucket, 3), 255);
    seq![
        (average(channel_values(bucket, 0), 0) * alpha / 255) as u8,
        (average(channel_values(bucket, 1), 0) * alpha / 255) as u8,
        (average(channel_values(bucket, 2), 0) * alpha / 255) as u8,
        alpha as u8,
    ]
}

/// A sum of values is at most 255 for each value.
pub proof fn lemma_total_bound(values: Seq<u8>)
    ensures
        total(values) <= 255 * values.len(),
    decreases values.len(),
{
    if values.len() > 0 {
        lemma_total_bound(values.drop_last());
    }
}

/// An average of values is at most 255, if the default is.
pub proof fn lemma_average_bound(values: Seq<u8>, default: nat)
    requires
        default <= 255,
    ensures
        average(values, default) <= 255,
{
    lemma_total_bound(values);
    if values.len() > 0 {
        let n = values.len() as int;
        let t = total(values) as int;
        assert(t / n <= 255) by (nonlinear_arith)
            requires
                0 <= t <= 255 * n,
                n > 0,
        ;
    }
}

/// The average that a sum and a count stand for.
fn average_of(sum: u128, count: usize, default: u8) -> (r: u8)
    requires
        sum <= 255 * count,
    ensures
        r == if count == 0 {
            default as int
        } else {
            sum as int / count as int
        },
{
    if count == 0 {
        default
    } else {
        let n = count as u128;
        let q = sum / n;
        assert(q <= 255) by (nonlinear_arith)
            requires
                q == sum as int / n as int,
                0 <= sum <= 255 * n,
                n > 0,
        ;
        q as u8
    }
}

/// One channel scaled by the alpha.
fn scaled(value: u8, alpha: u8) -> (r: u8)
    ensures
        r == (value as int * alpha as int) / 255,
{
    assert(value as int * alpha as int <= 255 * 255) by (nonlinear_arith)
        requires
            0 <= value <= 255,
            0 <= alpha <= 255,
    ;
    let product = value as u32 * alpha as u32;
    let q = product / 255;
    assert(q <= 255) by (nonlinear_arith)
        requires
            q == (value as int * alpha as int) / 255,
            0 <= value <= 255,
            0 <= alpha <= 255,
    ;
    q as u8
}

/// A row of values with one more at its end sums to the sum of the row and
/// that value.
proof fn lemma_total_push(values: Seq<u8>, value: u8)
    ensures
        total(values.push(value)) == total(values) + value,
{
    assert(values.push(value).drop_last() == values);
}

/// Mixes the pixel of a bucket.
pub fn current_pixel(bucket: &Vec<Color>) -> (pixel: Pixel)
    ensures
        pixel@ == pixel_of(bucket@),
{
    let mut red: u128 = 0;
    let mut green: u128 = 0;
    let mut blue: u128 = 0;
    let mut level: u128 = 0;
    let mut colours: usize = 0;
    let mut alphas: usize = 0;
    let mut i: usize = 0;
    assert(bucket@.take(0) == Seq::<Color>::empty());
    while i < bucket.len()
        invariant
            i <= bucket.len(),
            colours <= i,
            alphas <= i,
            colours == channel_values(bucket@.take(i as int), 0).len(),
            colours == channel_values(bucket@.take(i as int), 1).len(),
            colours == channel_values(bucket@.take(i as int), 2).len(),
            alphas == channel_values(bucket@.take(i as int), 3).len(),
            red == total(channel_values(bucket@.take(i as int), 0)),
            green == total(channel_values(bucket@.take(i as int), 1)),
            blue == total(channel_values(bucket@.take(i as int), 2)),
            level == total(channel_values(bucket@.take(i as int), 3)),
            red <= 255 * i,
            green <= 255 * i,
            blue <= 255 * i,
            level <= 255 * i,
        decreases bucket.len() - i,
    {
        let ghost before = bucket@.take(i as int);
        proof {
            assert(bucket@.take(i + 1).drop_last() == before);
            assert(bucket@.take(i + 1).last() == bucket@[i as int]);
        }
        match bucket[i] {
            Color::Rgb(rgb) => {
                let parts = rgb.encode();
                proof {
                    lemma_total_push(channel_values(before, 0), parts[0]);
                    lemma_total_push(channel_values(before, 1), parts[1]);
                    lemma_total_push(channel_values(before, 2), parts[2]);
                }
                red = red + parts[0] as u128;
                green = green + parts[1] as u128;
                blue = blue + parts[2] as u128;
                colours = colours + 1;
            },
            Color::Alpha(alpha) => {
                proof {
                    lemma_total_push(channel_values(before, 3), alpha.level());
                }
                level = level + alpha.encode() as u128;
                alphas = alphas + 1;
            },
        }
        i += 1;
    }
    assert(bucket@.take(i as int) == bucket@);
    proof {
        lemma_total_bound(channel_values(bucket@, 0));
        lemma_total_bound(channel_values(bucket@, 1));
        lemma_total_bound(channel_values(bucket@, 2));
        lemma_total_bound(channel_values(bucket@, 3));
        lemma_average_bound(channel_values(bucket@, 0), 0);
        lemma_average_bound(channel_values(bucket@, 1), 0);
        lemma_average_bound(channel_values(bucket@, 2), 0);
        lemma_average_bound(channel_values(bucket@, 3), 255);
    }
    let alpha = average_of(level, alphas, 255);
    let pixel: Pixel = [
        scaled(average_of(red, colours, 0), alpha),
        scaled(average_of(green, colours, 0), alpha),
        scaled(average_of(blue, colours, 0), alpha),
        alpha,
    ];
    assert(pixel@ =~= pixel_of(bucket@));
    pixel
}

/// What is left to do to the stack of bitmaps after a command.
#[derive(Debug, Clone, Copy, PartialEq, Eq)]
pub enum DrawAction {
    /// Nothing.
    Nothing,
    /// Draw a line on the top bitmap.
    Line { from: Position, to: Position, pixel: Pixel },
    /// Fill the area around a place on the top bitmap.
    Fill { at: Position, pixel: Pixel },
    /// Put an empty bitmap on top of the stack.
    AddBitmap,
    /// Take the top bitmap off and lay it over the one below.
    Compose,
    /// Take the top bitmap off and cut the one below down to it.
    Clip,
}

/// The drawer without its bitmaps: the bucket of colours, where it stands
/// and which way it faces, the place it has marked, and how many bitmaps
/// are on the stack.
#[derive(Debug, Clone, PartialEq, Eq)]
pub struct Drawer {
    pub bucket: Vec<Color>,
    pub position: Position,
    pub mark: Position,
    pub direction: Direction,
    pub bitmaps: usize,
}

/// A drawer as a value of the model.
pub struct DrawerView {
    pub bucket: Seq<Color>,
    pub position: Position,
    pub mark: Position,
    pub direction: Direction,
    pub bitmaps: nat,
}

impl View for Drawer {
    type V = DrawerView;

    open spec fn view(&self) -> DrawerView {
        DrawerView {
            bucket: self.bucket@,
            position: self.position,
            mark: self.mark,
            direction: self.direction,
            bitmaps: self.bitmaps as nat,
        }
    }
}

/// Whether a place lies on a bitmap.
pub open spec fn on_bitmap(p: Position) -> bool {
    0 <= p.x < SIZE && 0 <= p.y < SIZE
}

/// The place one step from `p` in direction `d`. A step over an edge comes
/// back in at the opposite edge.
pub open spec fn stepped(p: Position, d: Direction) -> Position {
    match d {
        Direction::North => Position { x: p.x, y: ((p.y - 1) % (SIZE as int)) as i32 },
        Direction::East => Position { x: ((p.x + 1) % (SIZE as int)) as i32, y: p.y },
        Direction::South => Position { x: p.x, y: ((p.y + 1) % (SIZE as int)) as i32 },
        Direction::West => Position { x: ((p.x - 1) % (SIZE as int)) as i32, y: p.y },
    }
}

impl DrawerView {
    /// The drawer stands and has its mark on the bitmap, and the stack
    /// holds at least one bitmap and at most `MAX_BITMAPS`.
    pub open spec fn wf(self) -> bool {
        &&& on_bitmap(self.position)
        &&& on_bitmap(self.mark)
        &&& 1 <= self.bitmaps <= MAX_BITMAPS
    }

    /// The drawer after a command.
    pub open spec fn after(self, command: DrawCommand) -> DrawerView {
        match command {
            DrawCommand::AddColor(color) => DrawerView { bucket: self.bucket.push(color), ..self },
            DrawCommand::ClearBucket => DrawerView { bucket: Seq::empty(), ..self },
            DrawCommand::Move => DrawerView {
                position: stepped(self.position, self.direction),
                ..self
            },
            DrawCommand::TurnCC => DrawerView {
                direction: self.direction.counter_clockwise(),
                ..self
            },
            DrawCommand::TurnC => DrawerView { direction: self.direction.clockwise(), ..self },
            DrawCommand::Mark => DrawerView { mark: self.position, ..self },
            DrawCommand::Line => self,
            DrawCommand::TryFill => self,
            DrawCommand::AddBitmap => if self.bitmaps < MAX_BITMAPS {
                DrawerView { bitmaps: self.bitmaps + 1, ..self }
            } else {
                self
            },
            DrawCommand::Compose => if self.bitmaps >= 2 {
                DrawerView { bitmaps: (self.bitmaps - 1) as nat, ..self }
            } else {
                self
            },
            DrawCommand::Clip => if self.bitmaps >= 2 {
                DrawerView { bitmaps: (self.bitmaps - 1) as nat, ..self }
            } else {
                self
            },
        }
    }

    /// What a command leaves to do to the bitmaps. A line goes from where
    /// the drawer stands to its mark; a line and a fill take the pixel that
    /// the bucket mixes. A bitmap is added only while the stack has room,
    /// and two bitmaps are put together only while there are two.
    pub open spec fn action(self, command: DrawCommand) -> DrawAction {
        match command {
            DrawCommand::Line => DrawAction::Line {
                from: self.position,
                to: self.mark,
                pixel: pixel_array(pixel_of(self.bucket)),
            },
            DrawCommand::TryFill => DrawAction::Fill {
                at: self.position,
                pixel: pixel_array(pixel_of(self.bucket)),
            },
            DrawCommand::AddBitmap => if self.bitmaps < MAX_BITMAPS {
                DrawAction::AddBitmap
            } else {
                DrawAction::Nothing
            },
            DrawCommand::Compose => if self.bitmaps >= 2 {
                DrawAction::Compose
            } else {
                DrawAction::Nothing
            },
            DrawCommand::Clip => if self.bitmaps >= 2 {
                DrawAction::Clip
            } else {
                DrawAction::Nothing
            },
            _ => DrawAction::Nothing,
        }
    }

    /// The drawer after a row of commands.
    pub open spec fn after_all(self, commands: Seq<DrawCommand>) -> DrawerView
        decreases commands.len(),
    {
        if commands.len() == 0 {
            self
        } else {
            self.after_all(commands.drop_last()).after(commands.last())
        }
    }

    /// What a row of commands leaves to do to the bitmaps, command by
    /// command.
    pub open spec fn actions(self, commands: Seq<DrawCommand>) -> Seq<DrawAction>
        decreases commands.len(),
    {
        if commands.len() == 0 {
            Seq::<DrawAction>::empty()
        } else {
            self.actions(commands.drop_last()).push(
                self.after_all(commands.drop_last()).action(commands.last()),
            )
        }
    }
}

/// The pixel with the four given values.
pub open spec fn pixel_array(values: Seq<u8>) -> Pixel {
    [values[0], values[1], values[2], values[3]]
}

impl Drawer {
    /// The drawer is well formed when its model is.
    pub open spec fn wf(&self) -> bool {
        self@.wf()
    }

    /// The drawer at the start: an empty bucket, in the corner of a single
    /// bitmap, facing east, with the mark in the same corner.
    pub fn new() -> (drawer: Self)
        ensures
            drawer.wf(),
            drawer@ == (DrawerView {
                bucket: Seq::empty(),
                position: Position { x: 0, y: 0 },
                mark: Position { x: 0, y: 0 },
                direction: Direction::East,
                bitmaps: 1,
            }),
    {
        Drawer {
            bucket: Vec::new(),
            position: Position { x: 0, y: 0 },
            mark: Position { x: 0, y: 0 },
            direction: Direction::East,
            bitmaps: 1,
        }
    }

    /// The pixel that the bucket mixes.
    pub fn current_pixel(&self) -> (pixel: Pixel)
        ensures
            pixel@ == pixel_of(self@.bucket),
    {
        current_pixel(&self.bucket)
    }

    /// Takes one command: changes the drawer as the command says, and hands
    /// back what is left to do to the bitmaps.
    pub fn apply(&mut self, command: DrawCommand) -> (action: DrawAction)
        requires
            old(self).wf(),
        ensures
            final(self).wf(),
            final(self)@ == old(self)@.after(command),
            action == old(self)@.action(command),
    {
        match command {
            DrawCommand::AddColor(color) => {
                self.bucket.push(color);
                DrawAction::Nothing
            },
            DrawCommand::ClearBucket => {
                self.bucket.clear();
                DrawAction::Nothing
            },
            DrawCommand::Move => {
                let Position { x, y } = self.position;
                self.position = match self.direction {
                    Direction::North => Position {
                        x,
                        y: if y == 0 {
                            SIZE - 1
                        } else {
                            y - 1
                        },
                    },
                    Direction::East => Position {
                        x: if x == SIZE - 1 {
                            0
                        } else {
                            x + 1
                        },
                        y,
                    },
                    Direction::South => Position {
                        x,
                        y: if y == SIZE - 1 {
                            0
                        } else {
                            y + 1
                        },
                    },
                    Direction::West => Position {
                        x: if x == 0 {
                            SIZE - 1
                        } else {
                            x - 1
                        },
                        y,
                    },
                };
                DrawAction::Nothing
            },
            DrawCommand::TurnCC => {
                self.direction = self.direction.turn_cc();
                DrawAction::Nothing
            },
            DrawCommand::TurnC => {
                self.direction = self.direction.turn_c();
                DrawAction::Nothing
            },
            DrawCommand::Mark => {
                self.mark = self.position;
                DrawAction::Nothing
            },
            DrawCommand::Line => {
                let pixel = self.current_pixel();
                assert(pixel == pixel_array(pixel_of(self@.bucket)));
                DrawAction::Line { from: self.position, to: self.mark, pixel }
            },
            DrawCommand::TryFill => {
                let pixel = self.current_pixel();
                assert(pixel == pixel_array(pixel_of(self@.bucket)));
                DrawAction::Fill { at: self.position, pixel }
            },
            DrawCommand::AddBitmap => {
                if self.bitmaps < MAX_BITMAPS {
                    self.bitmaps = self.bitmaps + 1;
                    DrawAction::AddBitmap
                } else {
                    DrawAction::Nothing
                }
            },
            DrawCommand::Compose => {
                if self.bitmaps >= 2 {
                    self.bitmaps = self.bitmaps - 1;
                    DrawAction::Compose
                } else {
                    DrawAction::Nothing
                }
            },
            DrawCommand::Clip => {
                if self.bitmaps >= 2 {
                    self.bitmaps = self.bitmaps - 1;
                    DrawAction::Clip
                } else {
                    DrawAction::Nothing
                }
            },
        }
    }

    /// Takes a row of commands, one after the other, and hands back what
    /// each of them leaves to do to the bitmaps.
    pub fn apply_all(&mut self, commands: &[DrawCommand]) -> (actions: Vec<DrawAction>)
        requires
            old(self).wf(),
        ensures
            final(self).wf(),
            final(self)@ == old(self)@.after_all(commands@),
            actions@ == old(self)@.actions(commands@),
    {
        let mut actions: Vec<DrawAction> = Vec::new();
        let mut i: usize = 0;
        assert(commands@.take(0) == Seq::<DrawCommand>::empty());
        while i < commands.len()
            invariant
                i <= commands.len(),
                self.wf(),
                self@ == old(self)@.after_all(commands@.take(i as int)),
                actions@ == old(self)@.actions(commands@.take(i as int)),
            decreases commands.len() - i,
        {
            proof {
                assert(commands@.take(i + 1).drop_last() == commands@.take(i as int));
                assert(commands@.take(i + 1).last() == commands@[i as int]);
            }
            let action = self.apply(commands[i]);
            actions.push(action);
            i += 1;
        }
        assert(commands@.take(i as int) == commands@);
        actions
    }
}

} // verus!
