//! A drawing surface that records what is done to it, for tests of drawing code.
use vstd::prelude::*;
use crate::pixel::Color;

verus! {

/// The error of a failed drawing call on a `MockCanvas`.
#[derive(Debug, PartialEq)]
pub struct MockError(pub String);

/// A canvas that counts how often it was cleared and shown, and keeps its colour.
#[derive(Debug)]
pub struct MockCanvas {
    pub shown: i32,
    pub cleared: i32,
    pub color: Color,
}

impl MockCanvas {
    /// A fresh canvas. Its colour is one that a random draw is unlikely to give,
    /// so that a test can see that it was set.
    pub fn new() -> (r: MockCanvas)
        ensures
            r.shown == 0,
            r.cleared == 0,
            r.color == Color(1, 1, 1),
    {
        MockCanvas { shown: 0, cleared: 0, color: Color(1, 1, 1) }
    }

    /// Fills the canvas with the active colour: here, counts the call.
    pub fn clear(&mut self)
        requires
            old(self).cleared < i32::MAX,
        ensures
            final(self).cleared == old(self).cleared + 1,
            final(self).shown == old(self).shown,
            final(self).color == old(self).color,
    {
        self.cleared = self.cleared + 1;
    }

    /// Shows what was drawn: here, counts the call.
    pub fn show(&mut self)
        requires
            old(self).shown < i32::MAX,
        ensures
            final(self).shown == old(self).shown + 1,
            final(self).cleared == old(self).cleared,
            final(self).color == old(self).color,
    {
        self.shown = self.shown + 1;
    }

    /// Makes `color` the active colour.
    pub fn set_color(&mut self, color: Color)
        ensures
            final(self).color == color,
            final(self).shown == old(self).shown,
            final(self).cleared == old(self).cleared,
    {
        self.color = color;
    }

    /// Writes text; fails on the text "fail", so that tests can follow an error.
    pub fn write_text(&mut self, t: &str) -> (r: Result<(), MockError>)
        ensures
            r is Err <==> t@ == "fail"@,
            r matches Err(e) ==> e.0@ == "write_text failed"@,
            *final(self) == *old(self),
    {
        let given = t.to_owned();
        let failing = "fail".to_owned();
        if given == failing {
            Err(MockError("write_text failed".to_owned()))
        } else {
            Ok(())
        }
    }
}

} // verus!
