//! One piece of feedback on one letter, and the test of a word against it.

use vstd::prelude::*;
use vstd::string::*;

verus! {

/// The possible states of a cell.
#[derive(Eq, PartialEq, Hash, Ord, PartialOrd, Clone, Copy, Debug, Structural)]
pub enum Cell {
    /// This letter is present, but not at this position.
    Yellow { letter: u8, position: usize },
    /// This letter is present at this position.
    Green { letter: u8, position: usize },
    /// This letter is absent.
    Grey(u8),
}

impl Cell {
    /// The letter that the feedback is about.
    pub open spec fn spec_byte(self) -> u8 {
        match self {
            Cell::Yellow { letter, .. } => letter,
            Cell::Green { letter, .. } => letter,
            Cell::Grey(letter) => letter,
        }
    }

    /// Whether the position that the feedback names, if it names one, lies
    /// inside a word of `width` letters.
    pub open spec fn fits(self, width: nat) -> bool {
        match self {
            Cell::Yellow { position, .. } => position < width,
            Cell::Green { position, .. } => position < width,
            Cell::Grey(_) => true,
        }
    }

    /// Whether the feedback names position `index`, or none at all.
    pub open spec fn sits_at(self, index: int) -> bool {
        match self {
            Cell::Yellow { position, .. } => position == index,
            Cell::Green { position, .. } => position == index,
            Cell::Grey(_) => true,
        }
    }

    /// Whether `word` is consistent with the feedback.
    pub open spec fn accepts(self, word: Seq<u8>) -> bool {
        match self {
            Cell::Green { letter, position } => word[position as int] == letter,
            Cell::Yellow { letter, position } => word[position as int] != letter && word.contains(
                letter,
            ),
            Cell::Grey(letter) => !word.contains(letter),
        }
    }

    /// The feedback that follows this one when the user steps through the
    /// three kinds at `position`.
    pub open spec fn cycled(self, position: usize) -> Cell {
        match self {
            Cell::Grey(letter) => Cell::Yellow { letter, position },
            Cell::Yellow { letter, .. } => Cell::Green { letter, position },
            Cell::Green { letter, .. } => Cell::Grey(letter),
        }
    }

    /// Tests a word against the feedback. The position that the feedback
    /// names must lie inside the word.
    pub fn accept(&self, input: &str) -> (ok: bool)
        requires
            self.fits(input.spec_bytes().len()),
        ensures
            ok == self.accepts(input.spec_bytes()),
    {
        let input = input.as_bytes();
        match *self {
            Cell::Green { letter, position } => input[position] == letter,
            Cell::Yellow { letter, position } => input[position] != letter && has_byte(
                input,
                letter,
            ),
            Cell::Grey(letter) => !has_byte(input, letter),
        }
    }

    /// The letter that the feedback is about.
    pub fn byte(&self) -> (b: u8)
        ensures
            b == self.spec_byte(),
    {
        match *self {
            Cell::Grey(letter) => letter,
            Cell::Yellow { letter, .. } => letter,
            Cell::Green { letter, .. } => letter,
        }
    }

    /// The letter that the feedback is about, as a character.
    pub fn letter(&self) -> (c: char)
        ensures
            c == self.spec_byte() as char,
    {
        self.byte() as char
    }

    /// The feedback that follows this one when the user steps through the
    /// three kinds at `position`: absent, present elsewhere, in place, and
    /// absent again. The letter stays.
    pub fn cycle(&self, position: usize) -> (next: Cell)
        ensures
            next == self.cycled(position),
            next.sits_at(position as int),
            next.spec_byte() == self.spec_byte(),
    {
        match *self {
            Cell::Grey(letter) => Cell::Yellow { position, letter },
            Cell::Yellow { letter, .. } => Cell::Green { position, letter },
            Cell::Green { letter, .. } => Cell::Grey(letter),
        }
    }
}

/// Whether `letter` occurs among `bytes`.
pub fn has_byte(bytes: &[u8], letter: u8) -> (found: bool)
    ensures
        found == bytes@.contains(letter),
{
    let mut i: usize = 0;
    while i < bytes.len()
        invariant
            i <= bytes.len(),
            forall|j: int| 0 <= j < i ==> bytes@[j] != letter,
        decreases bytes.len() - i,
    {
        if bytes[i] == letter {
            return true;
        }
        i += 1;
    }
    false
}

} // verus!
