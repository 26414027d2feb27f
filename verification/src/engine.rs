//! The engine of a game: it owns the dictionary, the filters and the history
//! of attempts, proposes guesses and takes corrections.

use crate::cell::Cell;
use crate::filters::{
    all_fit, consistent, lemma_offered_all_consistent, lemma_offered_all_fit, offered_all, Filters,
};
use crate::ranking::{
    best, best_index, bytes_of, entry_ok, exhausted, is_best, survives, uniform, Entry,
};
use crate::session::{first_match, has_word, replayed, Session};
use crate::word::{
    aligned, is_strike, letters, mutate_cells, readable, Word, MARK_STRIKE, MARK_STRIKE_SMALL,
};
use vstd::prelude::*;
use vstd::string::*;

verus! {

/// The rows of cells of a list of guesses.
pub open spec fn rows(words: Seq<Word>) -> Seq<Seq<Cell>> {
    Seq::new(words.len(), |i: int| words[i]@)
}

/// The engine of one game.
pub struct Wordler {
    attempts: Vec<Word>,
    suggestion: Word,
    filters: Filters,
    dictionary: Vec<Entry>,
    scoring_idx: usize,
    strategies: usize,
    width: usize,
}

impl View for Wordler {
    type V = Session;

    closed spec fn view(&self) -> Session {
        Session {
            attempts: rows(self.attempts@),
            suggestion: self.suggestion@,
            filters: self.filters@,
            dictionary: self.dictionary@,
            scoring: self.scoring_idx as int,
            strategies: self.strategies as int,
            width: self.width as int,
        }
    }
}

impl Wordler {
    /// Whether the filters are stored as they should be.
    pub closed spec fn stored(&self) -> bool {
        self.filters.wf()
    }

    /// What holds of an engine at all times.
    pub open spec fn wf(&self) -> bool {
        self.stored() && self@.wf()
    }

    /// Starts a game over `dictionary`, ranked by the first strategy. The
    /// dictionary must hold at least one word, every word must have as many
    /// letters as the first, and every entry as many ranks as the first, at
    /// least one.
    pub fn new(dictionary: Vec<Entry>) -> (made: Option<Wordler>)
        ensures
            made is Some <==> dictionary@.len() > 0 && dictionary@[0].ranks@.len() > 0 && uniform(
                dictionary@,
                bytes_of(dictionary@[0]).len() as int,
                dictionary@[0].ranks@.len() as int,
            ),
            made matches Some(game) ==> game.wf() && game@ == Session::opening(dictionary@, 0),
    {
        if dictionary.len() == 0 {
            return None;
        }
        let width = dictionary[0].word.as_str().as_bytes().len();
        let strategies = dictionary[0].ranks.len();
        if strategies == 0 {
            return None;
        }
        let mut i: usize = 0;
        while i < dictionary.len()
            invariant
                i <= dictionary@.len(),
                dictionary@.len() > 0,
                strategies > 0,
                width == bytes_of(dictionary@[0]).len(),
                strategies == dictionary@[0].ranks@.len(),
                uniform(dictionary@.take(i as int), width as int, strategies as int),
            decreases dictionary@.len() - i,
        {
            let entry = &dictionary[i];
            if entry.word.as_str().as_bytes().len() != width || entry.ranks.len() != strategies {
                assert(!entry_ok(dictionary@[i as int], width as int, strategies as int));
                return None;
            }
            assert forall|j: int| 0 <= j < i + 1 implies entry_ok(
                #[trigger] dictionary@.take(i + 1)[j],
                width as int,
                strategies as int,
            ) by {
                if j < i {
                    assert(dictionary@.take(i + 1)[j] == dictionary@.take(i as int)[j]);
                }
            }
            i += 1;
        }
        assert(dictionary@.take(i as int) =~= dictionary@);
        let filters = Filters::new();
        assert(survives(dictionary@[0], filters@));
        match best_index(&dictionary, &filters, 0) {
            None => None,
            Some(b) => {
                let suggestion = Word::new(dictionary[b].word.as_str());
                let game = Wordler {
                    attempts: Vec::new(),
                    suggestion,
                    filters,
                    dictionary,
                    scoring_idx: 0,
                    strategies,
                    width,
                };
                assert(game@.attempts =~= Seq::<Seq<Cell>>::empty());
                Some(game)
            },
        }
    }

    /// The guess on the table.
    pub fn suggestion(&self) -> (word: &Word)
        ensures
            word@ == self@.suggestion,
    {
        &self.suggestion
    }

    /// The earlier guesses, oldest first.
    pub fn attempts(&self) -> (words: &Vec<Word>)
        ensures
            rows(words@) == self@.attempts,
    {
        &self.attempts
    }

    /// The feedback that candidates are held against.
    pub fn filters(&self) -> (filters: &Filters)
        ensures
            filters@ == self@.filters,
            self.wf() ==> filters.wf(),
    {
        &self.filters
    }

    /// The words that can still be proposed.
    pub fn dictionary(&self) -> (entries: &Vec<Entry>)
        ensures
            entries@ == self@.dictionary,
    {
        &self.dictionary
    }

    /// The strategy that ranks the candidates.
    pub fn scoring_idx(&self) -> (k: usize)
        ensures
            k == self@.scoring,
    {
        self.scoring_idx
    }

    /// The number of strategies to choose from.
    pub fn strategies(&self) -> (n: usize)
        ensures
            n == self@.strategies,
    {
        self.strategies
    }

    /// The number of letters in each word.
    pub fn width(&self) -> (n: usize)
        ensures
            n == self@.width,
    {
        self.width
    }

    /// The candidate that would be proposed now: the best-ranked word that
    /// every filter accepts, if there is one.
    pub fn suggest_word(&self) -> (word: Option<&str>)
        requires
            self.wf(),
        ensures
            word is None <==> exhausted(self@.dictionary, self@.filters),
            word matches Some(w) ==> is_best(
                self@.dictionary,
                self@.filters,
                self@.scoring,
                best(self@.dictionary, self@.filters, self@.scoring),
            ) && w@ == self@.dictionary[best(
                self@.dictionary,
                self@.filters,
                self@.scoring,
            )].word@,
    {
        match best_index(&self.dictionary, &self.filters, self.scoring_idx) {
            None => None,
            Some(i) => Some(self.dictionary[i].word.as_str()),
        }
    }

    /// Offers each of `cells` to the filters, first to last: one that
    /// contradicts what is held is dropped.
    pub fn add_filters(&mut self, cells: Vec<Cell>)
        requires
            old(self).wf(),
            forall|i: int| 0 <= i < cells@.len() ==> (#[trigger] cells@[i]).fits(old(self)@.width as nat),
        ensures
            final(self).wf(),
            final(self)@ == (Session {
                filters: offered_all(old(self)@.filters, cells@),
                ..old(self)@
            }),
    {
        proof {
            lemma_offered_all_fit(self.filters@, cells@, self.width as nat);
            lemma_offered_all_consistent(self.filters@, cells@);
        }
        self.filters.add_filters(&cells);
    }

    /// Puts the user's feedback on the guess on the table. The row is taken
    /// if it has the letters of the guess, in the same places, and each cell
    /// that names a place names its own; any other row changes nothing.
    pub fn set_feedback(&mut self, word: Word) -> (taken: bool)
        requires
            old(self).wf(),
        ensures
            final(self).wf(),
            taken == (aligned(word@) && letters(word@) == letters(old(self)@.suggestion)),
            taken ==> final(self)@ == (Session { suggestion: word@, ..old(self)@ }),
            !taken ==> final(self)@ == old(self)@,
    {
        if word.0.len() != self.suggestion.0.len() {
            assert(letters(word@).len() != letters(self.suggestion@).len());
            return false;
        }
        let mut i: usize = 0;
        while i < word.0.len()
            invariant
                i <= word@.len(),
                *self == *old(self),
                self.wf(),
                word@.len() == self.suggestion@.len(),
                forall|j: int| 0 <= j < i ==> (#[trigger] word@[j]).sits_at(j),
                forall|j: int| 0 <= j < i ==> word@[j].spec_byte() == self.suggestion@[j].spec_byte(),
            decreases word@.len() - i,
        {
            let cell = word.0[i];
            let placed = match cell {
                Cell::Yellow { position, .. } => position == i,
                Cell::Green { position, .. } => position == i,
                Cell::Grey(_) => true,
            };
            if !placed {
                assert(!word@[i as int].sits_at(i as int));
                return false;
            }
            if cell.byte() != self.suggestion.0[i].byte() {
                assert(letters(word@)[i as int] != letters(self.suggestion@)[i as int]);
                return false;
            }
            i += 1;
        }
        assert(letters(word@) =~= letters(self.suggestion@));
        self.suggestion = word;
        true
    }

    /// Reads a line that the user typed in answer to the guess on the table.
    /// The single letter `N` strikes the guess as no word. A line of one
    /// mark for each letter (`G`, `Y` or `.`) is put on the guess as its
    /// feedback. Any other line is refused and changes nothing.
    pub fn respond(&mut self, response: &str) -> (outcome: Result<(), ()>)
        requires
            old(self).wf(),
        ensures
            final(self).wf(),
            final(self)@ == old(self)@.answered(response.spec_bytes()),
            outcome is Ok <==> is_strike(response.spec_bytes()) || readable(
                response.spec_bytes(),
                old(self)@.suggestion.len(),
            ),
    {
        let marks = response.as_bytes();
        if marks.len() == 1 && (marks[0] == MARK_STRIKE || marks[0] == MARK_STRIKE_SMALL) {
            self.not_a_word();
            return Ok(());
        }
        let outcome = mutate_cells(response, &mut self.suggestion.0);
        proof {
            let before = old(self)@;
            let after = self@;
            assert(after.attempts == before.attempts);
            assert(after.filters == before.filters);
            assert(after.dictionary == before.dictionary);
            assert(after.suggestion.len() == before.suggestion.len());
            assert(aligned(after.suggestion));
            assert(after.wf());
        }
        outcome
    }

    /// Steps the cell at `position` of the guess on the table to the next
    /// kind of feedback: from absent to present elsewhere, to in place, and
    /// back to absent. Returns `false`, and changes nothing, where the guess
    /// has no such cell.
    pub fn cycle(&mut self, position: usize) -> (stepped: bool)
        requires
            old(self).wf(),
        ensures
            final(self).wf(),
            final(self)@ == old(self)@.cycled(position as int),
            stepped == (position < old(self)@.suggestion.len()),
    {
        if position >= self.suggestion.0.len() {
            return false;
        }
        let cell = self.suggestion.0[position].cycle(position);
        self.suggestion.0[position] = cell;
        assert forall|j: int| 0 <= j < self.suggestion@.len() implies (
        #[trigger] self.suggestion@[j]).sits_at(j) by {
            if j != position {
                assert(old(self)@.suggestion[j].sits_at(j));
            }
        }
        proof {
            let before = old(self)@;
            let after = self@;
            assert(after.attempts == before.attempts);
            assert(after.filters == before.filters);
            assert(after.dictionary == before.dictionary);
            assert(after.suggestion =~= before.suggestion.update(
                position as int,
                before.suggestion[position as int].cycled(position),
            ));
            assert(after.wf());
        }
        true
    }

    /// Takes in the feedback on the table and proposes the next guess.
    /// Returns `false`, with the attempts and the guess as they were, when no
    /// candidate is left.
    pub fn next(&mut self) -> (found: bool)
        requires
            old(self).wf(),
        ensures
            final(self).wf(),
            final(self)@ == old(self)@.advanced(),
            found == old(self)@.can_advance(),
    {
        proof {
            lemma_aligned_fits(self.suggestion@);
            lemma_offered_all_fit(self.filters@, self.suggestion@, self.width as nat);
            lemma_offered_all_consistent(self.filters@, self.suggestion@);
        }
        self.filters.add_filters(&self.suggestion.0);
        match best_index(&self.dictionary, &self.filters, self.scoring_idx) {
            None => {
                proof {
                    self.filters.lemma_consistent();
                    assert(self@.attempts == old(self)@.attempts);
                    assert(self@.suggestion == old(self)@.suggestion);
                    assert(self@.dictionary == old(self)@.dictionary);
                    assert(self@.width == old(self)@.width);
                    assert(consistent(self@.filters));
                    assert(all_fit(self@.filters, self@.width as nat));
                    assert(self@.wf());
                    assert(self@ == old(self)@.advanced());
                }
                false
            },
            Some(i) => {
                let fresh = Word::new(self.dictionary[i].word.as_str());
                let pinned = self.suggestion.next(fresh);
                let prev = self.suggestion.duplicate();
                self.suggestion = pinned;
                self.attempts.push(prev);
                proof {
                    let before = old(self)@;
                    let after = self@;
                    assert(after.attempts =~= before.attempts.push(before.suggestion));
                    assert(entry_ok(self.dictionary@[i as int], before.width, before.strategies));
                    assert forall|j: int| 0 <= j < after.suggestion.len() implies (
                    #[trigger] after.suggestion[j]).sits_at(j) by {
                        assert(before.suggestion[j].sits_at(j));
                    }
                    assert forall|a: int| 0 <= a < after.attempts.len() implies (
                    #[trigger] after.attempts[a]).len() == after.width && aligned(
                        after.attempts[a],
                    ) by {
                        if a < before.attempts.len() {
                            assert(after.attempts[a] == before.attempts[a]);
                        }
                    }
                    self.filters.lemma_consistent();
                    assert(after.wf());
                    assert(after == before.advanced());
                }
                true
            },
        }
    }

    /// Takes the latest attempt back and derives the filters anew from the
    /// attempts that remain. Without an attempt it does nothing.
    pub fn undo(&mut self)
        requires
            old(self).wf(),
        ensures
            final(self).wf(),
            final(self)@ == old(self)@.undone(),
            old(self)@.attempts.len() > 0 ==> final(self)@.in_step(),
    {
        if self.attempts.len() == 0 {
            return;
        }
        let word = self.attempts.pop().unwrap();
        assert(rows(self.attempts@) =~= old(self)@.attempts.drop_last());
        assert(word@ == old(self)@.attempts.last());
        assert forall|j: int| 0 <= j < self.attempts@.len() implies (#[trigger] rows(
            self.attempts@,
        )[j]).len() == self.width && aligned(rows(self.attempts@)[j]) by {
            assert(rows(self.attempts@)[j] == old(self)@.attempts[j]);
        }
        self.suggestion = word;
        let mut filters = Filters::new();
        let mut a: usize = 0;
        while a < self.attempts.len()
            invariant
                a <= self.attempts@.len(),
                filters.wf(),
                filters@ == replayed(rows(self.attempts@).take(a as int)),
                all_fit(filters@, self.width as nat),
                forall|j: int|
                    0 <= j < self.attempts@.len() ==> (#[trigger] rows(self.attempts@)[j]).len()
                        == self.width && aligned(rows(self.attempts@)[j]),
            decreases self.attempts@.len() - a,
        {
            proof {
                let row = rows(self.attempts@)[a as int];
                assert(rows(self.attempts@).take(a + 1).drop_last() =~= rows(self.attempts@).take(
                    a as int,
                ));
                lemma_aligned_fits(row);
                lemma_offered_all_fit(filters@, row, self.width as nat);
            }
            filters.add_filters(&self.attempts[a].0);
            a += 1;
        }
        assert(rows(self.attempts@).take(a as int) =~= rows(self.attempts@));
        proof {
            filters.lemma_consistent();
        }
        self.filters = filters;
    }

    /// Strikes the guess on the table from the dictionary as no word: the
    /// latest attempt is taken back, the word leaves the dictionary, and the
    /// attempt's feedback is taken in again to propose another guess. Without
    /// an attempt it does nothing.
    pub fn not_a_word(&mut self)
        requires
            old(self).wf(),
        ensures
            final(self).wf(),
            final(self)@ == old(self)@.struck(),
    {
        if self.attempts.len() == 0 {
            return;
        }
        let flagged = self.suggestion.to_string();
        self.undo();
        match position(&self.dictionary, &flagged) {
            None => {},
            Some(i) => {
                proof {
                    lemma_first_match_unique(self.dictionary@, flagged@, i as int);
                }
                self.dictionary.swap_remove(i);
            },
        }
        self.next();
    }

    /// Clears the attempts and the filters and proposes the opening guess
    /// over the dictionary as it stands. Returns `false`, with the guess as
    /// it was, when the dictionary holds no word.
    pub fn reset(&mut self) -> (found: bool)
        requires
            old(self).wf(),
        ensures
            final(self).wf(),
            final(self)@ == old(self)@.restarted(),
            found == (old(self)@.dictionary.len() > 0),
            found ==> final(self)@ == Session::opening(old(self)@.dictionary, old(self)@.scoring),
    {
        self.attempts = Vec::new();
        self.filters = Filters::new();
        assert(rows(self.attempts@) =~= Seq::<Seq<Cell>>::empty());
        proof {
            if self.dictionary@.len() > 0 {
                assert(survives(self.dictionary@[0], self.filters@));
            }
        }
        match best_index(&self.dictionary, &self.filters, self.scoring_idx) {
            None => false,
            Some(i) => {
                self.suggestion = Word::new(self.dictionary[i].word.as_str());
                true
            },
        }
    }

    /// Chooses the strategy that ranks the candidates, and restarts. This is
    /// open only while there is no attempt, and only for a strategy that the
    /// entries are ranked under; otherwise nothing changes.
    pub fn set_scoring(&mut self, scoring: usize) -> (switched: bool)
        requires
            old(self).wf(),
        ensures
            final(self).wf(),
            switched == (old(self)@.attempts.len() == 0 && scoring < old(self)@.strategies),
            switched ==> final(self)@ == (Session {
                scoring: scoring as int,
                ..old(self)@
            }).restarted(),
            !switched ==> final(self)@ == old(self)@,
    {
        if self.attempts.len() != 0 || scoring >= self.strategies {
            return false;
        }
        self.scoring_idx = scoring;
        self.reset();
        true
    }
}

/// The first place in the dictionary that holds the word `text`.
pub fn position(dictionary: &Vec<Entry>, text: &String) -> (found: Option<usize>)
    ensures
        found is None <==> !has_word(dictionary@, text@),
        found matches Some(i) ==> first_match(dictionary@, text@, i as int),
{
    let mut i: usize = 0;
    while i < dictionary.len()
        invariant
            i <= dictionary@.len(),
            forall|j: int| 0 <= j < i ==> (#[trigger] dictionary@[j]).word@ != text@,
        decreases dictionary@.len() - i,
    {
        if dictionary[i].word == *text {
            return Some(i);
        }
        i += 1;
    }
    None
}

/// Only one place is the first that holds a word.
pub proof fn lemma_first_match_unique(dictionary: Seq<Entry>, text: Seq<char>, i: int)
    requires
        first_match(dictionary, text, i),
    ensures
        has_word(dictionary, text),
        i == choose|j: int| first_match(dictionary, text, j),
{
    let j = choose|j: int| first_match(dictionary, text, j);
    assert(first_match(dictionary, text, j));
}

/// In a row of `n` cells where each names its own place, each fits a word of
/// `n` letters.
pub proof fn lemma_aligned_fits(cells: Seq<Cell>)
    requires
        aligned(cells),
    ensures
        forall|i: int| 0 <= i < cells.len() ==> (#[trigger] cells[i]).fits(cells.len()),
{
    assert forall|i: int| 0 <= i < cells.len() implies (#[trigger] cells[i]).fits(cells.len()) by {
        assert(cells[i].sits_at(i));
    }
}

} // verus!
