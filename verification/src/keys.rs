use vstd::prelude::*;

verus! {

/// The raw keys that the games react to. Every other key of the keyboard is `Other`:
/// the games treat all of those alike.
#[derive(Debug, Clone, Copy, PartialEq, Eq, Structural)]
pub enum KeyCode {
    ArrowUp,
    ArrowDown,
    ArrowLeft,
    ArrowRight,
    S,
    Other,
}

/// A decoded key press: either a raw key without a character, or a character.
#[derive(Debug, Clone, Copy, PartialEq, Eq, Structural)]
pub enum DecodedKey {
    RawKey(KeyCode),
    Unicode(char),
}

} // verus!
