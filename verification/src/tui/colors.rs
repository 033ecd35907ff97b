use vstd::prelude::*;

verus! {

/// A color given by its red, green and blue components.
#[derive(Clone, Copy, Debug, Default, PartialEq, Eq, Structural)]
pub struct Rgb {
    pub red: u8,
    pub green: u8,
    pub blue: u8,
}

impl Rgb {
    pub fn new(r: u8, g: u8, b: u8) -> (c: Rgb)
        ensures
            c == (Rgb { red: r, green: g, blue: b }),
    {
        Rgb { red: r, green: g, blue: b }
    }

    pub fn r(&self) -> (v: u8)
        ensures
            v == self.red,
    {
        self.red
    }

    pub fn g(&self) -> (v: u8)
        ensures
            v == self.green,
    {
        self.green
    }

    pub fn b(&self) -> (v: u8)
        ensures
            v == self.blue,
    {
        self.blue
    }
}

} // verus!
