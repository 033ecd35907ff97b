use vstd::prelude::*;

use crate::tui::colors::Rgb;
use crate::tui::geometry::Idx;

verus! {

/// A text cell: its character, whether it shows, its place on the canvas and its colors.
/// Every change is announced by pushing the tuxel's place on the canvas onto a queue of
/// changed places.
#[derive(Clone, Copy, Debug, PartialEq, Eq, Structural)]
pub struct Tuxel {
    pub active: bool,
    pub content: char,
    pub idx: Idx,
    pub fgcolor: Option<Rgb>,
    pub bgcolor: Option<Rgb>,
}

/// The tuxel showing the character `c`.
pub open spec fn with_content(t: Tuxel, c: char) -> Tuxel {
    Tuxel { active: true, content: c, ..t }
}

impl Tuxel {
    /// A hidden tuxel at `idx`.
    pub fn new(idx: Idx) -> (t: Tuxel)
        ensures
            t == (Tuxel { active: false, content: '-', idx, fgcolor: None, bgcolor: None }),
    {
        Tuxel { active: false, content: '-', fgcolor: None, bgcolor: None, idx }
    }

    /// Shows the character `c`.
    pub fn set_content(&mut self, c: char, changed: &mut Vec<Idx>)
        ensures
            *final(self) == with_content(*old(self), c),
            final(changed)@ == old(changed)@.push(old(self).idx),
    {
        self.active = true;
        self.content = c;
        changed.push(self.idx);
    }

    /// Hides the tuxel and blanks it.
    pub fn clear(&mut self, changed: &mut Vec<Idx>)
        ensures
            *final(self) == (Tuxel { active: false, content: ' ', ..*old(self) }),
            final(changed)@ == old(changed)@.push(old(self).idx),
    {
        self.active = false;
        self.content = ' ';
        changed.push(self.idx);
    }

    pub fn active(&self) -> (r: bool)
        ensures
            r == self.active,
    {
        self.active
    }

    pub fn content(&self) -> (r: char)
        ensures
            r == self.content,
    {
        self.content
    }

    pub fn idx(&self) -> (r: Idx)
        ensures
            r == self.idx,
    {
        self.idx
    }

    /// Moves the tuxel to `idx` on the canvas.
    pub fn set_idx(&mut self, idx: &Idx, changed: &mut Vec<Idx>)
        ensures
            *final(self) == (Tuxel { idx: *idx, ..*old(self) }),
            final(changed)@ == old(changed)@.push(*idx),
    {
        self.idx = *idx;
        changed.push(self.idx);
    }

    pub fn colors(&self) -> (r: (Option<Rgb>, Option<Rgb>))
        ensures
            r == (self.fgcolor, self.bgcolor),
    {
        (self.fgcolor, self.bgcolor)
    }
}

} // verus!
