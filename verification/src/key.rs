use vstd::prelude::*;

verus! {

/// A key event as the editor sees it: a printable character, a modifier
/// state change, a named key, or an unrecognised scancode.
#[derive(Copy, Clone, PartialEq, Eq, Structural, Debug)]
pub enum Key {
    Char(char),
    Alt(bool),
    Shift(bool),
    Ctrl(bool),
    Backspace,
    Escape,
    Left,
    Right,
    Up,
    Down,
    Tab,
    Unknown(u8),
}

} // verus!
