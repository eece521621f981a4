use vstd::prelude::*;

verus! {

/// A key the cleanup screens react to; every other key is `Other`.
#[derive(Debug, Clone, Copy, PartialEq, Eq)]
pub enum KeyCode {
    Char(char),
    Enter,
    Esc,
    Up,
    Down,
    PageUp,
    PageDown,
    Home,
    End,
    Other,
}

/// Whether the Control key was held.
#[derive(Debug, Clone, Copy, PartialEq, Eq)]
pub enum KeyModifiers {
    Plain,
    Control,
}

/// A key press.
#[derive(Debug, Clone, Copy, PartialEq, Eq)]
pub struct KeyEvent {
    pub code: KeyCode,
    pub modifiers: KeyModifiers,
}

impl KeyEvent {
    /// A key press of `code` with `modifiers`.
    pub fn new(code: KeyCode, modifiers: KeyModifiers) -> (k: Self)
        ensures
            k.code == code,
            k.modifiers == modifiers,
    {
        KeyEvent { code, modifiers }
    }
}

/// Whether the key is the character `c`.
pub open spec fn is_char(key: KeyEvent, c: char) -> bool {
    key.code == KeyCode::Char(c)
}

/// The colours the cleanup screens draw with.
#[derive(Debug, Clone, Copy, PartialEq, Eq)]
pub enum Tone {
    Black,
    Cyan,
    DarkGray,
    Gray,
    Green,
    LightGreen,
    LightRed,
    Magenta,
    White,
    Yellow,
}

} // verus!
