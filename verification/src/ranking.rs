//! The dictionary, and the choice of the candidate that ranks highest among
//! those that the feedback leaves standing.

use crate::cell::Cell;
use crate::filters::{accepts_all, all_fit, Filters};
use vstd::prelude::*;
use vstd::string::*;

verus! {

/// A dictionary word with its rank under each scoring strategy: the higher
/// the rank, the more desirable the word as a guess.
#[derive(Clone, Debug)]
pub struct Entry {
    pub word: String,
    pub ranks: Vec<u64>,
}

/// The letters of an entry's word.
pub open spec fn bytes_of(entry: Entry) -> Seq<u8> {
    vstd::utf8::encode_utf8(entry.word@)
}

/// Whether an entry is a word of `width` letters ranked under each of
/// `strategies` strategies.
pub open spec fn entry_ok(entry: Entry, width: int, strategies: int) -> bool {
    &&& bytes_of(entry).len() == width
    &&& entry.ranks@.len() == strategies
}

/// Whether every entry is a word of `width` letters ranked under each of
/// `strategies` strategies.
pub open spec fn uniform(dictionary: Seq<Entry>, width: int, strategies: int) -> bool {
    forall|i: int| 0 <= i < dictionary.len() ==> entry_ok(#[trigger] dictionary[i], width, strategies)
}

/// Whether an entry's word is consistent with all of `filters`.
pub open spec fn survives(entry: Entry, filters: Set<Cell>) -> bool {
    accepts_all(filters, bytes_of(entry))
}

/// Whether no word of the dictionary is consistent with all of `filters`.
pub open spec fn exhausted(dictionary: Seq<Entry>, filters: Set<Cell>) -> bool {
    forall|i: int| 0 <= i < dictionary.len() ==> !survives(#[trigger] dictionary[i], filters)
}

/// Whether entry `i` is the suggestion: it survives, no survivor ranks higher
/// under strategy `k`, and among the survivors of its rank it comes last.
pub open spec fn is_best(dictionary: Seq<Entry>, filters: Set<Cell>, k: int, i: int) -> bool {
    &&& 0 <= i < dictionary.len()
    &&& survives(dictionary[i], filters)
    &&& forall|j: int|
        0 <= j < i && survives(#[trigger] dictionary[j], filters) ==> dictionary[j].ranks@[k]
            <= dictionary[i].ranks@[k]
    &&& forall|j: int|
        i < j < dictionary.len() && survives(#[trigger] dictionary[j], filters)
            ==> dictionary[j].ranks@[k] < dictionary[i].ranks@[k]
}

/// The place of the suggestion in the dictionary, where there is one.
pub open spec fn best(dictionary: Seq<Entry>, filters: Set<Cell>, k: int) -> int {
    choose|i: int| is_best(dictionary, filters, k, i)
}

/// At most one entry is the suggestion.
pub proof fn lemma_best_unique(dictionary: Seq<Entry>, filters: Set<Cell>, k: int, i: int, j: int)
    requires
        is_best(dictionary, filters, k, i),
        is_best(dictionary, filters, k, j),
    ensures
        i == j,
{
}

/// Where a word survives, the suggestion is one: a word of the dictionary
/// that every filter accepts and that no survivor outranks.
pub proof fn lemma_best_is_candidate(dictionary: Seq<Entry>, filters: Set<Cell>, k: int)
    requires
        !exhausted(dictionary, filters),
    ensures
        is_best(dictionary, filters, k, best(dictionary, filters, k)),
{
    lemma_best_exists(dictionary, filters, k, dictionary.len() as int);
    assert(dictionary.take(dictionary.len() as int) =~= dictionary);
}

/// Among the first `n` entries, if one survives, one is the suggestion.
proof fn lemma_best_exists(dictionary: Seq<Entry>, filters: Set<Cell>, k: int, n: int)
    requires
        0 <= n <= dictionary.len(),
    ensures
        !exhausted(dictionary.take(n), filters) ==> exists|i: int|
            is_best(dictionary.take(n), filters, k, i),
    decreases n,
{
    let head = dictionary.take(n);
    if n > 0 && !exhausted(head, filters) {
        let shorter = dictionary.take(n - 1);
        assert(forall|j: int| 0 <= j < n - 1 ==> shorter[j] == head[j]);
        lemma_best_exists(dictionary, filters, k, n - 1);
        if exhausted(shorter, filters) {
            assert(survives(head[n - 1], filters));
            assert(is_best(head, filters, k, n - 1));
        } else {
            let i = choose|i: int| is_best(shorter, filters, k, i);
            if survives(head[n - 1], filters) && head[i].ranks@[k] <= head[n - 1].ranks@[k] {
                assert forall|j: int| 0 <= j < n - 1 && survives(#[trigger] head[j], filters)
                    implies head[j].ranks@[k] <= head[n - 1].ranks@[k] by {
                    assert(survives(shorter[j], filters));
                }
                assert(is_best(head, filters, k, n - 1));
            } else {
                assert forall|j: int| i < j < n && survives(#[trigger] head[j], filters)
                    implies head[j].ranks@[k] < head[i].ranks@[k] by {
                    if j < n - 1 {
                        assert(survives(shorter[j], filters));
                    }
                }
                assert forall|j: int| 0 <= j < i && survives(#[trigger] head[j], filters)
                    implies head[j].ranks@[k] <= head[i].ranks@[k] by {
                    assert(survives(shorter[j], filters));
                }
                assert(is_best(head, filters, k, i));
            }
        }
    }
}

/// Scans the dictionary for the suggestion: the survivor of `filters` that
/// ranks highest under `strategy`, the last of them where several rank alike.
pub fn best_index(dictionary: &Vec<Entry>, filters: &Filters, strategy: usize) -> (found: Option<
    usize,
>)
    requires
        forall|i: int|
            0 <= i < dictionary@.len() ==> strategy < (#[trigger] dictionary@[i]).ranks@.len(),
        forall|i: int|
            0 <= i < dictionary@.len() ==> all_fit(
                filters@,
                bytes_of(#[trigger] dictionary@[i]).len(),
            ),
    ensures
        found is None <==> exhausted(dictionary@, filters@),
        found matches Some(i) ==> is_best(dictionary@, filters@, strategy as int, i as int) && i
            == best(dictionary@, filters@, strategy as int),
{
    let mut found: Option<usize> = None;
    let mut top: u64 = 0;
    let mut i: usize = 0;
    while i < dictionary.len()
        invariant
            i <= dictionary@.len(),
            forall|j: int|
                0 <= j < dictionary@.len() ==> strategy < (#[trigger] dictionary@[j]).ranks@.len(),
            forall|j: int|
                0 <= j < dictionary@.len() ==> all_fit(
                    filters@,
                    bytes_of(#[trigger] dictionary@[j]).len(),
                ),
            found is None <==> exhausted(dictionary@.take(i as int), filters@),
            found matches Some(b) ==> is_best(
                dictionary@.take(i as int),
                filters@,
                strategy as int,
                b as int,
            ) && top == dictionary@[b as int].ranks@[strategy as int],
        decreases dictionary@.len() - i,
    {
        let ghost head = dictionary@.take(i as int);
        let ghost longer = dictionary@.take(i + 1);
        assert(forall|j: int| 0 <= j < i ==> head[j] == longer[j]);
        let entry = &dictionary[i];
        let rank = entry.ranks[strategy];
        if filters.accept(entry.word.as_str()) {
            assert(survives(longer[i as int], filters@));
            let better = match found {
                None => true,
                Some(_) => top <= rank,
            };
            if better {
                proof {
                    assert forall|j: int| 0 <= j < i && survives(#[trigger] longer[j], filters@)
                        implies longer[j].ranks@[strategy as int] <= rank by {
                        assert(survives(head[j], filters@));
                    }
                }
                found = Some(i);
                top = rank;
            } else {
                proof {
                    let b = found.unwrap() as int;
                    assert forall|j: int| b < j < i + 1 && survives(#[trigger] longer[j], filters@)
                        implies longer[j].ranks@[strategy as int] < top by {
                        if j < i {
                            assert(survives(head[j], filters@));
                        }
                    }
                    assert forall|j: int| 0 <= j < b && survives(#[trigger] longer[j], filters@)
                        implies longer[j].ranks@[strategy as int] <= top by {
                        assert(survives(head[j], filters@));
                    }
                }
            }
        } else {
            proof {
                if found is Some {
                    let b = found.unwrap() as int;
                    assert forall|j: int| b < j < i + 1 && survives(#[trigger] longer[j], filters@)
                        implies longer[j].ranks@[strategy as int] < top by {
                        if j < i {
                            assert(survives(head[j], filters@));
                        }
                    }
                    assert forall|j: int| 0 <= j < b && survives(#[trigger] longer[j], filters@)
                        implies longer[j].ranks@[strategy as int] <= top by {
                        assert(survives(head[j], filters@));
                    }
                } else {
                    assert forall|j: int| 0 <= j < i + 1 implies !survives(
                        #[trigger] longer[j],
                        filters@,
                    ) by {
                        if j < i {
                            assert(!survives(head[j], filters@));
                        }
                    }
                }
            }
        }
        i += 1;
    }
    proof {
        assert(dictionary@.take(i as int) =~= dictionary@);
        if found is Some {
            lemma_best_is_candidate(dictionary@, filters@, strategy as int);
            lemma_best_unique(
                dictionary@,
                filters@,
                strategy as int,
                found.unwrap() as int,
                best(dictionary@, filters@, strategy as int),
            );
        }
    }
    found
}

} // verus!
