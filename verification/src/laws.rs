//! What holds of the engine across its operations.

use crate::cell::Cell;
use crate::filters::{
    compatible, consistent, contradicts, lemma_offered_all_consistent, offered, offered_all,
};
use crate::ranking::{best, exhausted, lemma_best_is_candidate, Entry};
use crate::session::{
    distinct, first_match, has_word, holds, pruned, replayed, within, Session,
};
use crate::word::text;
use vstd::prelude::*;

verus! {

/// What each kind of feedback asks of a word: a green cell, its letter at
/// its place; a yellow cell, its letter in the word but not at its place; a
/// grey cell, no occurrence of its letter.
pub proof fn law_accept_by_kind(letter: u8, position: usize, word: Seq<u8>)
    ensures
        (Cell::Green { letter, position }).accepts(word) == (word[position as int] == letter),
        (Cell::Yellow { letter, position }).accepts(word) == (word[position as int] != letter
            && word.contains(letter)),
        Cell::Grey(letter).accepts(word) == !word.contains(letter),
{
}

/// A cell that contradicts a member of the set is dropped: the set stays as
/// it is.
pub proof fn law_contradiction_is_dropped(set: Set<Cell>, held: Cell, cell: Cell)
    requires
        set.contains(held),
        contradicts(held, cell),
    ensures
        !compatible(set, cell),
        offered(set, cell) == set,
{
}

/// Offering a cell a second time changes nothing.
pub proof fn law_offer_twice(set: Set<Cell>, cell: Cell)
    ensures
        offered(offered(set, cell), cell) == offered(set, cell),
{
    if compatible(set, cell) {
        assert(set.insert(cell).insert(cell) =~= set.insert(cell));
    }
}

/// The filters that a history gives never call a letter both absent and
/// present.
pub proof fn law_replayed_consistent(attempts: Seq<Seq<Cell>>)
    ensures
        consistent(replayed(attempts)),
    decreases attempts.len(),
{
    if attempts.len() > 0 {
        law_replayed_consistent(attempts.drop_last());
        lemma_offered_all_consistent(replayed(attempts.drop_last()), attempts.last());
    }
}

/// A game starts in step: with no attempts and no filters.
pub proof fn law_opening_in_step(dictionary: Seq<Entry>, scoring: int)
    ensures
        Session::opening(dictionary, scoring).in_step(),
{
}

/// Taking in the feedback on the table keeps a game in step: where a
/// candidate is left, the filters are again what the attempts give.
pub proof fn law_advance_keeps_step(s: Session)
    requires
        s.in_step(),
        s.can_advance(),
    ensures
        s.advanced().in_step(),
{
    let after = s.advanced();
    assert(after.attempts.drop_last() =~= s.attempts);
}

/// Taking an attempt back and then taking its feedback in again gives the
/// filters that were there before, in a game that is in step.
pub proof fn law_undo_then_replay(s: Session)
    requires
        s.attempts.len() > 0,
        s.in_step(),
    ensures
        s.undone().suggestion == s.attempts.last(),
        s.undone().in_step(),
        s.undone().committed() == s.filters,
        s.undone().advanced().filters == s.filters,
{
}

/// The operations take no word into the dictionary: every entry that is
/// there afterwards was there before.
pub proof fn law_dictionary_only_shrinks(s: Session, struck: Seq<char>)
    ensures
        s.advanced().dictionary == s.dictionary,
        s.undone().dictionary == s.dictionary,
        s.restarted().dictionary == s.dictionary,
        within(s.without(struck).dictionary, s.dictionary),
{
    lemma_pruned_within(s.dictionary, struck);
}

/// Every entry of a pruned dictionary is an entry of the dictionary.
pub proof fn lemma_pruned_within(dictionary: Seq<Entry>, struck: Seq<char>)
    ensures
        within(pruned(dictionary, struck), dictionary),
{
    let after = pruned(dictionary, struck);
    if has_word(dictionary, struck) {
        lemma_first_match_exists(dictionary, struck, dictionary.len() as int);
        let i = choose|i: int| first_match(dictionary, struck, i);
        assert forall|a: int| 0 <= a < after.len() implies holds(
            dictionary,
            #[trigger] after[a],
        ) by {
            if a == i {
                assert(dictionary[dictionary.len() - 1] == after[a]);
            } else {
                assert(dictionary[a] == after[a]);
            }
        }
    } else {
        assert forall|a: int| 0 <= a < after.len() implies holds(
            dictionary,
            #[trigger] after[a],
        ) by {
            assert(dictionary[a] == after[a]);
        }
    }
}

/// Where one of the first `n` entries holds a word, one of them is the first
/// to hold it.
pub proof fn lemma_first_match_exists(dictionary: Seq<Entry>, word: Seq<char>, n: int)
    requires
        0 <= n <= dictionary.len(),
    ensures
        (exists|i: int| 0 <= i < n && (#[trigger] dictionary[i]).word@ == word) ==> exists|i: int|
            first_match(dictionary, word, i),
    decreases n,
{
    if n > 0 {
        lemma_first_match_exists(dictionary, word, n - 1);
        if exists|i: int| 0 <= i < n - 1 && (#[trigger] dictionary[i]).word@ == word {
        } else if dictionary[n - 1].word@ == word {
            assert(first_match(dictionary, word, n - 1));
        }
    }
}

/// A word that the dictionary lacks is not in a smaller dictionary either.
pub proof fn lemma_missing_in_smaller(small: Seq<Entry>, large: Seq<Entry>, word: Seq<char>)
    requires
        within(small, large),
        !has_word(large, word),
    ensures
        !has_word(small, word),
{
    if has_word(small, word) {
        let i = choose|i: int| 0 <= i < small.len() && (#[trigger] small[i]).word@ == word;
        assert(holds(large, small[i]));
        let j = choose|j: int| 0 <= j < large.len() && #[trigger] large[j] == small[i];
        assert(large[j].word@ == word);
    }
}

/// Striking a word from a dictionary that holds no word twice leaves a
/// dictionary without it, which again holds no word twice.
pub proof fn law_struck_word_is_gone(dictionary: Seq<Entry>, struck: Seq<char>)
    requires
        distinct(dictionary),
    ensures
        !has_word(pruned(dictionary, struck), struck),
        distinct(pruned(dictionary, struck)),
{
    let after = pruned(dictionary, struck);
    if has_word(dictionary, struck) {
        lemma_first_match_exists(dictionary, struck, dictionary.len() as int);
        let i = choose|i: int| first_match(dictionary, struck, i);
        let last = dictionary.len() - 1;
        assert forall|a: int| 0 <= a < after.len() implies (#[trigger] after[a]).word@ != struck by {
            if a == i {
                assert(after[a] == dictionary[last]);
                assert(dictionary[i].word@ != dictionary[last].word@);
            } else {
                assert(after[a] == dictionary[a]);
                if a < i {
                    assert(dictionary[a].word@ != dictionary[i].word@);
                } else {
                    assert(dictionary[i].word@ != dictionary[a].word@);
                }
            }
        }
        assert forall|a: int, b: int| 0 <= a < b < after.len() implies (#[trigger] after[a]).word@
            != (#[trigger] after[b]).word@ by {
            let from_a = if a == i {
                last
            } else {
                a
            };
            let from_b = if b == i {
                last
            } else {
                b
            };
            assert(after[a] == dictionary[from_a]);
            assert(after[b] == dictionary[from_b]);
            if from_a < from_b {
                assert(dictionary[from_a].word@ != dictionary[from_b].word@);
            } else {
                assert(dictionary[from_b].word@ != dictionary[from_a].word@);
            }
        }
    }
}

/// After a guess was struck as no word, the dictionary does not hold it, in
/// a game whose dictionary holds no word twice.
pub proof fn law_not_a_word_removes(s: Session)
    requires
        s.attempts.len() > 0,
        distinct(s.dictionary),
    ensures
        !has_word(s.struck().dictionary, text(s.suggestion)),
        distinct(s.struck().dictionary),
{
    law_struck_word_is_gone(s.dictionary, text(s.suggestion));
}

/// A word that the dictionary lacks stays out, whatever is done next.
pub proof fn law_missing_word_stays_out(s: Session, word: Seq<char>, struck: Seq<char>)
    requires
        !has_word(s.dictionary, word),
    ensures
        !has_word(s.advanced().dictionary, word),
        !has_word(s.undone().dictionary, word),
        !has_word(s.restarted().dictionary, word),
        !has_word(s.without(struck).dictionary, word),
{
    lemma_pruned_within(s.dictionary, struck);
    lemma_missing_in_smaller(s.without(struck).dictionary, s.dictionary, word);
}

/// A word that the dictionary lacks is never proposed.
pub proof fn law_missing_word_not_suggested(
    dictionary: Seq<Entry>,
    filters: Set<Cell>,
    k: int,
    word: Seq<char>,
)
    requires
        !has_word(dictionary, word),
        !exhausted(dictionary, filters),
    ensures
        dictionary[best(dictionary, filters, k)].word@ != word,
{
    lemma_best_is_candidate(dictionary, filters, k);
}

/// A restart puts the game where a new game over the same dictionary, as it
/// stands now, would start under the same strategy.
pub proof fn law_restart_is_opening(s: Session)
    requires
        s.wf(),
        s.dictionary.len() > 0,
    ensures
        s.restarted() == Session::opening(s.dictionary, s.scoring),
{
    assert(crate::ranking::entry_ok(s.dictionary[0], s.width, s.strategies));
}

/// The filters of a history with one more attempt are the filters of the
/// history with the feedback of that attempt offered to them.
pub proof fn law_replay_unfolds(attempts: Seq<Seq<Cell>>, row: Seq<Cell>)
    ensures
        replayed(attempts.push(row)) == offered_all(replayed(attempts), row),
{
    assert(attempts.push(row).drop_last() =~= attempts);
}

} // verus!
