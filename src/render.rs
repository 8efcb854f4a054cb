//! Notifications to the render actor.

use vstd::prelude::*;

verus! {

/// What the render actor is told: draw the current state again, or stop.
/// Several `Render`s in a row come to one redraw.
#[derive(Clone, Copy, Debug, PartialEq, Eq, Structural)]
pub enum Message {
    Quit,
    Render,
}

impl Message {
    /// Whether the render actor stops on this message.
    pub fn is_quit(&self) -> (r: bool)
        ensures
            r <==> *self == Message::Quit,
    {
        match self {
            Message::Quit => true,
            Message::Render => false,
        }
    }
}

} // verus!
