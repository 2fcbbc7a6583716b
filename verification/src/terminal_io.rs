//! The abstract keystroke events the line editor consumes. The surrounding
//! program translates raw terminal events into these before handing them to
//! the core.

use vstd::prelude::*;

verus! {

/// One key, after decoding.
pub enum MskKeyCode {
    Char(char),
    Backspace,
    Enter,
    ArrowRight,
    ArrowLeft,
    Tab,
    Up,
    Down,
}

/// One terminal event.
pub enum MskEvent {
    Key(MskKeyCode),
}

} // verus!
