use vstd::prelude::*;

verus! {

/// The terminal's key event (`crossterm::event::KeyEvent`), carried through
/// opaquely: nothing of its contents is read or stated here.
#[verifier::external_type_specification]
#[verifier::external_body]
pub struct ExCrosstermKeyEvent(crossterm::event::KeyEvent);

/// The keys that the interface tells apart.
#[derive(Clone, Copy, PartialEq, Eq, Structural, Debug)]
pub enum KeyCode {
    Esc,
    Tab,
    Left,
    Right,
    Up,
    Down,
    Enter,
    Backspace,
    Char(char),
    /// Any other key.
    Other,
}

/// Whether a key went down, repeats, or went up.
#[derive(Clone, Copy, PartialEq, Eq, Structural, Debug)]
pub enum KeyEventKind {
    Press,
    Repeat,
    Release,
}

/// A key event: what the interface reads of it as plain values, and the
/// terminal's own event, which text areas are handed to edit their text.
#[derive(Clone, Copy)]
pub struct KeyInput {
    pub code: KeyCode,
    pub kind: KeyEventKind,
    pub raw: crossterm::event::KeyEvent,
}

impl KeyInput {
    pub fn is_press(&self) -> (r: bool)
        ensures
            r == (self.kind == KeyEventKind::Press),
    {
        self.kind == KeyEventKind::Press
    }

    pub fn is_release(&self) -> (r: bool)
        ensures
            r == (self.kind == KeyEventKind::Release),
    {
        self.kind == KeyEventKind::Release
    }
}

/// The code point of `c` with ASCII upper case letters made lower case.
pub open spec fn spec_ascii_lower(c: char) -> u32 {
    let n = c as u32;
    if 65 <= n <= 90 {
        (n + 32) as u32
    } else {
        n
    }
}

/// The code point of `c` made ASCII lower case.
pub fn ascii_lower(c: char) -> (r: u32)
    ensures
        r == spec_ascii_lower(c),
{
    let n = c as u32;
    if 65 <= n && n <= 90 {
        n + 32
    } else {
        n
    }
}

} // verus!
