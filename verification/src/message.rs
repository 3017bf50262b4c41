//! The `Message` value object: one saved badge program, made of parallel
//! per-segment attribute lists.

use vstd::prelude::*;

verus! {

/// Scrolling speed of one segment: eight discrete levels.
#[derive(Debug, Clone, Copy, PartialEq, Eq, Structural)]
pub enum Speed {
    One,
    Two,
    Three,
    Four,
    Five,
    Six,
    Seven,
    Eight,
}

/// Animation style of one segment.
#[derive(Debug, Clone, Copy, PartialEq, Eq, Structural)]
pub enum Animation {
    Left,
    Right,
    Up,
    Down,
    StillCentered,
    Animation,
    DropDown,
    Curtain,
    Laser,
}

/// One saved badge program. The six per-segment lists run in parallel:
/// entry `i` of each describes segment `i`.
#[derive(Debug)]
pub struct Message {
    /// Identity assigned at save time; empty until the first save.
    pub file_name: String,
    /// One entry per display segment.
    pub texts: Vec<String>,
    pub inverted: Vec<bool>,
    pub flash: Vec<bool>,
    pub marquee: Vec<bool>,
    pub speed: Vec<Speed>,
    pub mode: Vec<Animation>,
}

/// Mathematical model of a `Message`.
pub struct MessageView {
    pub file_name: Seq<char>,
    pub texts: Seq<Seq<char>>,
    pub inverted: Seq<bool>,
    pub flash: Seq<bool>,
    pub marquee: Seq<bool>,
    pub speed: Seq<Speed>,
    pub mode: Seq<Animation>,
}

impl MessageView {
    /// The data-model invariant: all six attribute lists have one entry per
    /// segment.
    pub open spec fn wf(self) -> bool {
        &&& self.texts.len() == self.inverted.len()
        &&& self.texts.len() == self.flash.len()
        &&& self.texts.len() == self.marquee.len()
        &&& self.texts.len() == self.speed.len()
        &&& self.texts.len() == self.mode.len()
    }
}

/// The sequence of character sequences that a list of strings stands for.
pub open spec fn strings_view(v: Seq<String>) -> Seq<Seq<char>> {
    v.map_values(|s: String| s@)
}

impl View for Message {
    type V = MessageView;

    open spec fn view(&self) -> MessageView {
        MessageView {
            file_name: self.file_name@,
            texts: strings_view(self.texts@),
            inverted: self.inverted@,
            flash: self.flash@,
            marquee: self.marquee@,
            speed: self.speed@,
            mode: self.mode@,
        }
    }
}

} // verus!
