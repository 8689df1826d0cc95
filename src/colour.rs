use vstd::prelude::*;

verus! {

/// A terminal colour: a 24-bit colour given as red, green and blue bytes, one
/// of the eight ANSI colours, or the terminal's own default.
pub enum Colour {
    Rgb(Vec<u8>),
    Black,
    Red,
    Green,
    Yellow,
    Blue,
    Magenta,
    Cyan,
    White,
    Reset,
}

} // verus!
