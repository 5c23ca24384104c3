use vstd::prelude::*;
use crate::base::Base;

verus! {

/// A pixel: red, green, blue and alpha, each from 0 to 255.
pub type Pixel = [u8; 4];

/// The eight colours without alpha.
#[derive(Debug, Clone, Copy, PartialEq, Eq, Structural)]
pub enum Rgb {
    Black,
    Red,
    Green,
    Yellow,
    Blue,
    Magenta,
    Cyan,
    White,
}

impl Rgb {
    /// The red, green and blue part of the colour.
    pub open spec fn channels(self) -> Seq<u8> {
        match self {
            Rgb::Black => seq![0u8, 0u8, 0u8],
            Rgb::Red => seq![255u8, 0u8, 0u8],
            Rgb::Green => seq![0u8, 255u8, 0u8],
            Rgb::Yellow => seq![255u8, 255u8, 0u8],
            Rgb::Blue => seq![0u8, 0u8, 255u8],
            Rgb::Magenta => seq![255u8, 0u8, 255u8],
            Rgb::Cyan => seq![0u8, 255u8, 255u8],
            Rgb::White => seq![255u8, 255u8, 255u8],
        }
    }

    pub fn encode(&self) -> (r: [u8; 3])
        ensures
            r@ == self.channels(),
    {
        let r: [u8; 3] = match self {
            Rgb::Black => [0, 0, 0],
            Rgb::Red => [255, 0, 0],
            Rgb::Green => [0, 255, 0],
            Rgb::Yellow => [255, 255, 0],
            Rgb::Blue => [0, 0, 255],
            Rgb::Magenta => [255, 0, 255],
            Rgb::Cyan => [0, 255, 255],
            Rgb::White => [255, 255, 255],
        };
        assert(r@ =~= self.channels());
        r
    }
}

/// The two alpha values.
#[derive(Debug, Clone, Copy, PartialEq, Eq, Structural)]
pub enum Alpha {
    Transparent,
    Opaque,
}

impl Alpha {
    /// The alpha value as a number.
    pub open spec fn level(self) -> u8 {
        match self {
            Alpha::Transparent => 0,
            Alpha::Opaque => 255,
        }
    }

    pub fn encode(&self) -> (r: u8)
        ensures
            r == self.level(),
    {
        match self {
            Alpha::Transparent => 0,
            Alpha::Opaque => 255,
        }
    }
}

/// What goes into the bucket: a colour or an alpha value.
#[derive(Debug, Clone, Copy, PartialEq, Eq, Structural)]
pub enum Color {
    Rgb(Rgb),
    Alpha(Alpha),
}

/// What a word of the log asks the drawer to do.
#[derive(Debug, Clone, Copy, PartialEq, Eq, Structural)]
pub enum DrawCommand {
    AddColor(Color),
    ClearBucket,
    Move,
    TurnCC,
    TurnC,
    Mark,
    Line,
    TryFill,
    AddBitmap,
    Compose,
    Clip,
}

/// The command that a word of the log stands for, if it stands for one.
/// Every such word has seven symbols and begins with `P`.
pub open spec fn command_of(word: Seq<Base>) -> Option<DrawCommand> {
    if word.len() != 7 {
        None
    } else {
        match (word[0], word[1], word[2], word[3], word[4], word[5], word[6]) {
            (Base::P, Base::I, Base::P, Base::I, Base::I, Base::I, Base::C) => Some(
                DrawCommand::AddColor(Color::Rgb(Rgb::Black)),
            ),
            (Base::P, Base::I, Base::P, Base::I, Base::I, Base::I, Base::P) => Some(
                DrawCommand::AddColor(Color::Rgb(Rgb::Red)),
            ),
            (Base::P, Base::I, Base::P, Base::I, Base::I, Base::C, Base::C) => Some(
                DrawCommand::AddColor(Color::Rgb(Rgb::Green)),
            ),
            (Base::P, Base::I, Base::P, Base::I, Base::I, Base::C, Base::F) => Some(
                DrawCommand::AddColor(Color::Rgb(Rgb::Yellow)),
            ),
            (Base::P, Base::I, Base::P, Base::I, Base::I, Base::C, Base::P) => Some(
                DrawCommand::AddColor(Color::Rgb(Rgb::Blue)),
            ),
            (Base::P, Base::I, Base::P, Base::I, Base::I, Base::F, Base::C) => Some(
                DrawCommand::AddColor(Color::Rgb(Rgb::Magenta)),
            ),
            (Base::P, Base::I, Base::P, Base::I, Base::I, Base::F, Base::F) => Some(
                DrawCommand::AddColor(Color::Rgb(Rgb::Cyan)),
            ),
            (Base::P, Base::I, Base::P, Base::I, Base::I, Base::P, Base::C) => Some(
                DrawCommand::AddColor(Color::Rgb(Rgb::White)),
            ),
            (Base::P, Base::I, Base::P, Base::I, Base::I, Base::P, Base::F) => Some(
                DrawCommand::AddColor(Color::Alpha(Alpha::Transparent)),
            ),
            (Base::P, Base::I, Base::P, Base::I, Base::I, Base::P, Base::P) => Some(
                DrawCommand::AddColor(Color::Alpha(Alpha::Opaque)),
            ),
            (Base::P, Base::I, Base::I, Base::P, Base::I, Base::C, Base::P) => Some(
                DrawCommand::ClearBucket,
            ),
            (Base::P, Base::I, Base::I, Base::I, Base::I, Base::I, Base::P) => Some(
                DrawCommand::Move,
            ),
            (Base::P, Base::C, Base::C, Base::C, Base::C, Base::C, Base::P) => Some(
                DrawCommand::TurnCC,
            ),
            (Base::P, Base::F, Base::F, Base::F, Base::F, Base::F, Base::P) => Some(
                DrawCommand::TurnC,
            ),
            (Base::P, Base::C, Base::C, Base::I, Base::F, Base::F, Base::P) => Some(
                DrawCommand::Mark,
            ),
            (Base::P, Base::F, Base::F, Base::I, Base::C, Base::C, Base::P) => Some(
                DrawCommand::Line,
            ),
            (Base::P, Base::I, Base::I, Base::P, Base::I, Base::I, Base::P) => Some(
                DrawCommand::TryFill,
            ),
            (Base::P, Base::C, Base::C, Base::P, Base::F, Base::F, Base::P) => Some(
                DrawCommand::AddBitmap,
            ),
            (Base::P, Base::F, Base::F, Base::P, Base::C, Base::C, Base::P) => Some(
                DrawCommand::Compose,
            ),
            (Base::P, Base::F, Base::F, Base::I, Base::C, Base::C, Base::F) => Some(
                DrawCommand::Clip,
            ),
            _ => None,
        }
    }
}

/// The commands that the words of a log stand for, in the order of the log.
/// A word that stands for no command is passed over.
pub open spec fn commands_of(log: Seq<Seq<Base>>) -> Seq<DrawCommand>
    decreases log.len(),
{
    if log.len() == 0 {
        Seq::<DrawCommand>::empty()
    } else {
        match command_of(log.last()) {
            Some(command) => commands_of(log.drop_last()).push(command),
            None => commands_of(log.drop_last()),
        }
    }
}

impl DrawCommand {
    /// Reads a word of the log as a command.
    pub fn decode(d: &[Base]) -> (r: Option<Self>)
        ensures
            r == command_of(d@),
    {
        if d.len() != 7 {
            return None;
        }
        match (d[0], d[1], d[2], d[3], d[4], d[5], d[6]) {
            (Base::P, Base::I, Base::P, Base::I, Base::I, Base::I, Base::C) => Some(
                DrawCommand::AddColor(Color::Rgb(Rgb::Black)),
            ),
            (Base::P, Base::I, Base::P, Base::I, Base::I, Base::I, Base::P) => Some(
                DrawCommand::AddColor(Color::Rgb(Rgb::Red)),
            ),
            (Base::P, Base::I, Base::P, Base::I, Base::I, Base::C, Base::C) => Some(
                DrawCommand::AddColor(Color::Rgb(Rgb::Green)),
            ),
            (Base::P, Base::I, Base::P, Base::I, Base::I, Base::C, Base::F) => Some(
                DrawCommand::AddColor(Color::Rgb(Rgb::Yellow)),
            ),
            (Base::P, Base::I, Base::P, Base::I, Base::I, Base::C, Base::P) => Some(
                DrawCommand::AddColor(Color::Rgb(Rgb::Blue)),
            ),
            (Base::P, Base::I, Base::P, Base::I, Base::I, Base::F, Base::C) => Some(
                DrawCommand::AddColor(Color::Rgb(Rgb::Magenta)),
            ),
            (Base::P, Base::I, Base::P, Base::I, Base::I, Base::F, Base::F) => Some(
                DrawCommand::AddColor(Color::Rgb(Rgb::Cyan)),
            ),
            (Base::P, Base::I, Base::P, Base::I, Base::I, Base::P, Base::C) => Some(
                DrawCommand::AddColor(Color::Rgb(Rgb::White)),
            ),
            (Base::P, Base::I, Base::P, Base::I, Base::I, Base::P, Base::F) => Some(
                DrawCommand::AddColor(Color::Alpha(Alpha::Transparent)),
            ),
            (Base::P, Base::I, Base::P, Base::I, Base::I, Base::P, Base::P) => Some(
                DrawCommand::AddColor(Color::Alpha(Alpha::Opaque)),
            ),
            (Base::P, Base::I, Base::I, Base::P, Base::I, Base::C, Base::P) => Some(
                DrawCommand::ClearBucket,
            ),
            (Base::P, Base::I, Base::I, Base::I, Base::I, Base::I, Base::P) => Some(
                DrawCommand::Move,
            ),
            (Base::P, Base::C, Base::C, Base::C, Base::C, Base::C, Base::P) => Some(
                DrawCommand::TurnCC,
            ),
            (Base::P, Base::F, Base::F, Base::F, Base::F, Base::F, Base::P) => Some(
                DrawCommand::TurnC,
            ),
            (Base::P, Base::C, Base::C, Base::I, Base::F, Base::F, Base::P) => Some(
                DrawCommand::Mark,
            ),
            (Base::P, Base::F, Base::F, Base::I, Base::C, Base::C, Base::P) => Some(
                DrawCommand::Line,
            ),
            (Base::P, Base::I, Base::I, Base::P, Base::I, Base::I, Base::P) => Some(
                DrawCommand::TryFill,
            ),
            (Base::P, Base::C, Base::C, Base::P, Base::F, Base::F, Base::P) => Some(
                DrawCommand::AddBitmap,
            ),
            (Base::P, Base::F, Base::F, Base::P, Base::C, Base::C, Base::P) => Some(
                DrawCommand::Compose,
            ),
            (Base::P, Base::F, Base::F, Base::I, Base::C, Base::C, Base::F) => Some(
                DrawCommand::Clip,
            ),
            _ => None,
        }
    }
}

} // verus!
