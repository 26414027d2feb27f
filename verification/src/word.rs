//! A guess, as a row of cells, and the reading of the user's answer to it.

use crate::cell::Cell;
use itertools::Itertools;
use vstd::prelude::*;
use vstd::string::*;

verus! {

/// The mark `.`, for a letter that the target does not hold.
pub const MARK_GREY: u8 = 46;

/// The mark `Y`, for a letter that the target holds elsewhere.
pub const MARK_YELLOW: u8 = 89;

/// The mark `y`, read as `Y`.
pub const MARK_YELLOW_SMALL: u8 = 121;

/// The mark `G`, for a letter that is in its place.
pub const MARK_GREEN: u8 = 71;

/// The mark `g`, read as `G`.
pub const MARK_GREEN_SMALL: u8 = 103;

/// The answer `N`, which strikes the guess as no word.
pub const MARK_STRIKE: u8 = 78;

/// The answer `n`, read as `N`.
pub const MARK_STRIKE_SMALL: u8 = 110;

/// The row of cells that shows `bytes` with no feedback given yet.
pub open spec fn greys(bytes: Seq<u8>) -> Seq<Cell> {
    Seq::new(bytes.len(), |i: int| Cell::Grey(bytes[i]))
}

/// The letters of a row of cells.
pub open spec fn letters(cells: Seq<Cell>) -> Seq<u8> {
    Seq::new(cells.len(), |i: int| cells[i].spec_byte())
}

/// The letters of a row of cells, as characters.
pub open spec fn text(cells: Seq<Cell>) -> Seq<char> {
    Seq::new(cells.len(), |i: int| cells[i].spec_byte() as char)
}

/// Whether each cell that names a position names its own place in the row.
pub open spec fn aligned(cells: Seq<Cell>) -> bool {
    forall|i: int| 0 <= i < cells.len() ==> (#[trigger] cells[i]).sits_at(i)
}

/// The row `fresh` in which every place that `prev` has and shows green
/// keeps the cell of `prev`.
pub open spec fn pinned(prev: Seq<Cell>, fresh: Seq<Cell>) -> Seq<Cell> {
    Seq::new(
        fresh.len(),
        |i: int|
            if i < prev.len() && prev[i] is Green {
                prev[i]
            } else {
                fresh[i]
            },
    )
}

/// Whether `symbol` is one of the marks of an answer.
pub open spec fn is_mark(symbol: u8) -> bool {
    symbol == MARK_GREY || symbol == MARK_YELLOW || symbol == MARK_YELLOW_SMALL || symbol
        == MARK_GREEN || symbol == MARK_GREEN_SMALL
}

/// The cell at `position` after the user answered `symbol` for it: the letter
/// stays, the kind follows the mark.
pub open spec fn marked(cell: Cell, symbol: u8, position: usize) -> Cell {
    if symbol == MARK_GREEN || symbol == MARK_GREEN_SMALL {
        Cell::Green { letter: cell.spec_byte(), position }
    } else if symbol == MARK_YELLOW || symbol == MARK_YELLOW_SMALL {
        Cell::Yellow { letter: cell.spec_byte(), position }
    } else {
        Cell::Grey(cell.spec_byte())
    }
}

/// Whether `response` answers a row of `width` cells: one mark for each.
pub open spec fn readable(response: Seq<u8>, width: nat) -> bool {
    &&& response.len() == width
    &&& forall|i: int| 0 <= i < response.len() ==> is_mark(#[trigger] response[i])
}

/// Whether `response` strikes the guess as no word: the single letter `N`, in
/// either case.
pub open spec fn is_strike(response: Seq<u8>) -> bool {
    response.len() == 1 && (response[0] == MARK_STRIKE || response[0] == MARK_STRIKE_SMALL)
}

/// The row `cells` after the answer `response` was read into it.
pub open spec fn answered(cells: Seq<Cell>, response: Seq<u8>) -> Seq<Cell> {
    Seq::new(cells.len(), |i: int| marked(cells[i], response[i], i as usize))
}

/// A guess: one cell for each letter.
#[derive(Clone, Eq, PartialEq, Debug)]
pub struct Word(pub Vec<Cell>);

impl View for Word {
    type V = Seq<Cell>;

    open spec fn view(&self) -> Seq<Cell> {
        self.0@
    }
}

impl Word {
    /// The guess `input` with no feedback given yet.
    pub fn new(input: &str) -> (word: Word)
        ensures
            word@ == greys(input.spec_bytes()),
    {
        let bytes = input.as_bytes();
        let mut cells: Vec<Cell> = Vec::new();
        let mut i: usize = 0;
        while i < bytes.len()
            invariant
                i <= bytes.len(),
                cells@ == greys(bytes@.take(i as int)),
            decreases bytes.len() - i,
        {
            cells.push(Cell::Grey(bytes[i]));
            i += 1;
            assert(cells@ =~= greys(bytes@.take(i as int)));
        }
        assert(bytes@.take(i as int) =~= bytes@);
        Word(cells)
    }

    /// The guess that follows this one: `letters`, with the cells that are
    /// green here carried over to the same places.
    pub fn next(&self, letters: Word) -> (word: Word)
        ensures
            word@ == pinned(self@, letters@),
    {
        let mut letters = letters;
        let ghost fresh = letters@;
        let mut i: usize = 0;
        while i < letters.0.len() && i < self.0.len()
            invariant
                i <= letters@.len(),
                i <= self@.len(),
                letters@.len() == fresh.len(),
                forall|j: int| 0 <= j < i ==> letters@[j] == pinned(self@, fresh)[j],
                forall|j: int| i <= j < fresh.len() ==> letters@[j] == fresh[j],
            decreases letters@.len() - i,
        {
            let prev = self.0[i];
            match prev {
                Cell::Green { .. } => {
                    letters.0[i] = prev;
                },
                _ => (),
            }
            i += 1;
        }
        assert(letters@ =~= pinned(self@, fresh));
        letters
    }

    /// The cells, each with its place in the row.
    pub fn enumerate(&self) -> (pairs: Vec<(usize, Cell)>)
        ensures
            pairs@.len() == self@.len(),
            forall|i: int| 0 <= i < self@.len() ==> #[trigger] pairs@[i] == (i as usize, self@[i]),
    {
        let mut pairs: Vec<(usize, Cell)> = Vec::new();
        let mut i: usize = 0;
        while i < self.0.len()
            invariant
                i <= self@.len(),
                pairs@.len() == i,
                forall|j: int| 0 <= j < i ==> #[trigger] pairs@[j] == (j as usize, self@[j]),
            decreases self@.len() - i,
        {
            pairs.push((i, self.0[i]));
            i += 1;
        }
        pairs
    }

    /// The letters of the guess, as a string.
    pub fn to_string(&self) -> (s: String)
        ensures
            s@ == text(self@),
    {
        let mut chars: Vec<char> = Vec::new();
        let mut i: usize = 0;
        while i < self.0.len()
            invariant
                i <= self@.len(),
                chars@ == text(self@.take(i as int)),
            decreases self@.len() - i,
        {
            chars.push(self.0[i].letter());
            i += 1;
            assert(chars@ =~= text(self@.take(i as int)));
        }
        assert(self@.take(i as int) =~= self@);
        join_letters(&chars)
    }

    /// A copy of the guess.
    pub fn duplicate(&self) -> (word: Word)
        ensures
            word@ == self@,
    {
        let mut cells: Vec<Cell> = Vec::new();
        let mut i: usize = 0;
        while i < self.0.len()
            invariant
                i <= self@.len(),
                cells@ == self@.take(i as int),
            decreases self@.len() - i,
        {
            cells.push(self.0[i]);
            i += 1;
            assert(cells@ =~= self@.take(i as int));
        }
        assert(self@.take(i as int) =~= self@);
        Word(cells)
    }
}

/// `Itertools::join` over the letters with an empty separator: the string
/// that holds exactly these characters, in this order.
#[verifier::external_body]
fn join_letters(chars: &Vec<char>) -> (s: String)
    ensures
        s@ == chars@,
{
    chars.iter().join("")
}

/// Whether `symbol` is one of the marks of an answer.
pub fn known_mark(symbol: u8) -> (known: bool)
    ensures
        known == is_mark(symbol),
{
    symbol == MARK_GREY || symbol == MARK_YELLOW || symbol == MARK_YELLOW_SMALL || symbol
        == MARK_GREEN || symbol == MARK_GREEN_SMALL
}

/// Reads the user's answer into the cells of the guess it is about: `G` for a
/// letter in its place, `Y` for one that belongs elsewhere, `.` for one that
/// is absent, in either case of letter. An answer of another length, or with
/// another symbol in it, is refused and changes nothing.
pub fn mutate_cells(response: &str, cells: &mut Vec<Cell>) -> (outcome: Result<(), ()>)
    ensures
        outcome is Ok <==> readable(response.spec_bytes(), old(cells)@.len()),
        outcome is Ok ==> final(cells)@ == answered(old(cells)@, response.spec_bytes()),
        outcome is Ok ==> aligned(final(cells)@) && letters(final(cells)@) == letters(
            old(cells)@,
        ),
        outcome is Err ==> final(cells)@ == old(cells)@,
{
    let marks = response.as_bytes();
    if marks.len() != cells.len() {
        return Err(());
    }
    let mut k: usize = 0;
    while k < marks.len()
        invariant
            k <= marks.len(),
            marks@ == response.spec_bytes(),
            forall|j: int| 0 <= j < k ==> is_mark(#[trigger] marks@[j]),
        decreases marks.len() - k,
    {
        if !known_mark(marks[k]) {
            assert(!is_mark(response.spec_bytes()[k as int]));
            return Err(());
        }
        k += 1;
    }
    let mut i: usize = 0;
    while i < cells.len()
        invariant
            i <= cells@.len(),
            cells@.len() == old(cells)@.len(),
            marks@.len() == cells@.len(),
            marks@ == response.spec_bytes(),
            forall|j: int| 0 <= j < i ==> cells@[j] == answered(old(cells)@, marks@)[j],
            forall|j: int| i <= j < cells@.len() ==> cells@[j] == old(cells)@[j],
        decreases cells@.len() - i,
    {
        let letter = cells[i].byte();
        let symbol = marks[i];
        let cell = if symbol == MARK_GREEN || symbol == MARK_GREEN_SMALL {
            Cell::Green { letter, position: i }
        } else if symbol == MARK_YELLOW || symbol == MARK_YELLOW_SMALL {
            Cell::Yellow { letter, position: i }
        } else {
            Cell::Grey(letter)
        };
        cells[i] = cell;
        i += 1;
    }
    assert(cells@ =~= answered(old(cells)@, marks@));
    assert(letters(cells@) =~= letters(old(cells)@));
    Ok(())
}

} // verus!
