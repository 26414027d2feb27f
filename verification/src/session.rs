//! The state of a game as plain mathematics: what each operation of the
//! engine does to it.

use crate::cell::Cell;
use crate::filters::{all_fit, consistent, offered_all};
use crate::ranking::{best, bytes_of, exhausted, uniform, Entry};
use crate::word::{aligned, answered, greys, is_strike, pinned, readable, text};
use vstd::prelude::*;

verus! {

/// The filters that the attempts give when each is offered in turn to a set
/// that starts empty, oldest first.
pub open spec fn replayed(attempts: Seq<Seq<Cell>>) -> Set<Cell>
    decreases attempts.len(),
{
    if attempts.len() == 0 {
        Set::empty()
    } else {
        offered_all(replayed(attempts.drop_last()), attempts.last())
    }
}

/// Whether `i` is the first place in the dictionary that holds the word `text`.
pub open spec fn first_match(dictionary: Seq<Entry>, text: Seq<char>, i: int) -> bool {
    &&& 0 <= i < dictionary.len()
    &&& dictionary[i].word@ == text
    &&& forall|j: int| 0 <= j < i ==> (#[trigger] dictionary[j]).word@ != text
}

/// Whether the dictionary holds the word `text`.
pub open spec fn has_word(dictionary: Seq<Entry>, text: Seq<char>) -> bool {
    exists|i: int| 0 <= i < dictionary.len() && (#[trigger] dictionary[i]).word@ == text
}

/// Whether no word stands twice in the dictionary.
pub open spec fn distinct(dictionary: Seq<Entry>) -> bool {
    forall|i: int, j: int|
        0 <= i < j < dictionary.len() ==> (#[trigger] dictionary[i]).word@
            != (#[trigger] dictionary[j]).word@
}

/// The dictionary without the first entry that holds `text`: the last entry
/// takes its place. Without such an entry, the dictionary as it is.
pub open spec fn pruned(dictionary: Seq<Entry>, text: Seq<char>) -> Seq<Entry> {
    if has_word(dictionary, text) {
        let i = choose|i: int| first_match(dictionary, text, i);
        dictionary.update(i, dictionary.last()).drop_last()
    } else {
        dictionary
    }
}

/// Whether `entry` is an entry of the dictionary.
pub open spec fn holds(dictionary: Seq<Entry>, entry: Entry) -> bool {
    exists|j: int| 0 <= j < dictionary.len() && #[trigger] dictionary[j] == entry
}

/// Whether every entry of `small` is an entry of `large`.
pub open spec fn within(small: Seq<Entry>, large: Seq<Entry>) -> bool {
    forall|i: int| 0 <= i < small.len() ==> holds(large, #[trigger] small[i])
}

/// The state of a game.
pub struct Session {
    /// The earlier guesses with the feedback given on each, oldest first.
    pub attempts: Seq<Seq<Cell>>,
    /// The guess on the table, with the feedback given on it so far.
    pub suggestion: Seq<Cell>,
    /// The feedback that candidates are held against.
    pub filters: Set<Cell>,
    /// The words that can still be proposed.
    pub dictionary: Seq<Entry>,
    /// The strategy that ranks the candidates.
    pub scoring: int,
    /// The number of strategies that each entry is ranked under.
    pub strategies: int,
    /// The number of letters in each word.
    pub width: int,
}

impl Session {
    /// What holds of the state at all times.
    pub open spec fn wf(self) -> bool {
        &&& 0 <= self.width
        &&& 0 <= self.scoring < self.strategies
        &&& uniform(self.dictionary, self.width, self.strategies)
        &&& consistent(self.filters)
        &&& all_fit(self.filters, self.width as nat)
        &&& self.suggestion.len() == self.width
        &&& aligned(self.suggestion)
        &&& forall|a: int|
            0 <= a < self.attempts.len() ==> (#[trigger] self.attempts[a]).len() == self.width
                && aligned(self.attempts[a])
    }

    /// The state in which a game over `dictionary` starts under strategy
    /// `scoring`: no attempts, no filters, and the best-ranked word on the
    /// table.
    pub open spec fn opening(dictionary: Seq<Entry>, scoring: int) -> Session {
        Session {
            attempts: Seq::empty(),
            suggestion: greys(bytes_of(dictionary[best(dictionary, Set::empty(), scoring)])),
            filters: Set::empty(),
            dictionary,
            scoring,
            strategies: dictionary[0].ranks@.len() as int,
            width: bytes_of(dictionary[0]).len() as int,
        }
    }

    /// The filters after the feedback on the table was offered to them.
    pub open spec fn committed(self) -> Set<Cell> {
        offered_all(self.filters, self.suggestion)
    }

    /// Whether a candidate is left once the feedback on the table counts.
    pub open spec fn can_advance(self) -> bool {
        !exhausted(self.dictionary, self.committed())
    }

    /// The state after the feedback on the table was taken in: where a
    /// candidate is left, the guess joins the attempts and the best-ranked
    /// candidate takes its place, with the green cells carried over.
    pub open spec fn advanced(self) -> Session {
        if self.can_advance() {
            let i = best(self.dictionary, self.committed(), self.scoring);
            Session {
                attempts: self.attempts.push(self.suggestion),
                suggestion: pinned(self.suggestion, greys(bytes_of(self.dictionary[i]))),
                filters: self.committed(),
                ..self
            }
        } else {
            Session { filters: self.committed(), ..self }
        }
    }

    /// The state after the latest attempt was taken back: it is on the table
    /// again, and the filters are those of the attempts that remain. Without
    /// an attempt, the state as it is.
    pub open spec fn undone(self) -> Session {
        if self.attempts.len() == 0 {
            self
        } else {
            Session {
                attempts: self.attempts.drop_last(),
                suggestion: self.attempts.last(),
                filters: replayed(self.attempts.drop_last()),
                ..self
            }
        }
    }

    /// The state with `text` struck from the dictionary.
    pub open spec fn without(self, text: Seq<char>) -> Session {
        Session { dictionary: pruned(self.dictionary, text), ..self }
    }

    /// The state after the guess on the table was struck as no word: the
    /// latest attempt is taken back, the word leaves the dictionary, and the
    /// attempt's feedback is taken in again. Without an attempt, the state as
    /// it is.
    pub open spec fn struck(self) -> Session {
        if self.attempts.len() == 0 {
            self
        } else {
            self.undone().without(text(self.suggestion)).advanced()
        }
    }

    /// The state after the user's line `response` was read: `N` strikes the
    /// guess; one mark for each letter is put on the guess as its feedback;
    /// any other line changes nothing.
    pub open spec fn answered(self, response: Seq<u8>) -> Session {
        if is_strike(response) {
            self.struck()
        } else if readable(response, self.suggestion.len()) {
            Session { suggestion: answered(self.suggestion, response), ..self }
        } else {
            self
        }
    }

    /// The state after the user stepped the cell at `position` of the guess
    /// to the next kind of feedback. Outside the guess, the state as it is.
    pub open spec fn cycled(self, position: int) -> Session {
        if 0 <= position < self.suggestion.len() {
            Session {
                suggestion: self.suggestion.update(
                    position,
                    self.suggestion[position].cycled(position as usize),
                ),
                ..self
            }
        } else {
            self
        }
    }

    /// The state after a restart: attempts and filters are cleared; where the
    /// dictionary holds a word, the best-ranked one is on the table.
    pub open spec fn restarted(self) -> Session {
        Session {
            attempts: Seq::empty(),
            suggestion: if self.dictionary.len() == 0 {
                self.suggestion
            } else {
                greys(bytes_of(self.dictionary[best(self.dictionary, Set::empty(), self.scoring)]))
            },
            filters: Set::empty(),
            ..self
        }
    }

    /// Whether the filters are exactly what the attempts give.
    pub open spec fn in_step(self) -> bool {
        self.filters == replayed(self.attempts)
    }
}

} // verus!
