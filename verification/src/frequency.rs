//! What the scoring strategies are built from: the word list as owned
//! strings, how often each letter occurs in it, and the distinct letters of
//! a word.

use crate::words::{all, pieces};
use itertools::Itertools;
use vstd::prelude::*;
use vstd::string::*;

verus! {

/// The words of a word list, one for each line of `text`, as owned strings.
pub fn english_words(text: &str) -> (words: Vec<String>)
    ensures
        words@.len() == pieces(text@, '\n').len(),
        forall|i: int| 0 <= i < words@.len() ==> (#[trigger] words@[i])@ == pieces(text@, '\n')[i],
{
    let lines = all(text);
    let mut words: Vec<String> = Vec::new();
    let mut i: usize = 0;
    while i < lines.len()
        invariant
            i <= lines@.len(),
            words@.len() == i,
            forall|j: int| 0 <= j < i ==> (#[trigger] words@[j])@ == lines@[j]@,
        decreases lines@.len() - i,
    {
        words.push(lines[i].to_owned());
        i += 1;
    }
    words
}

/// How often `letter` occurs in `word`.
pub open spec fn count_in(word: Seq<u8>, letter: u8) -> nat
    decreases word.len(),
{
    if word.len() == 0 {
        0
    } else {
        count_in(word.drop_last(), letter) + if word.last() == letter {
            1nat
        } else {
            0nat
        }
    }
}

/// How often `letter` occurs in all of `words` together.
pub open spec fn occurrences(words: Seq<String>, letter: u8) -> nat
    decreases words.len(),
{
    if words.len() == 0 {
        0
    } else {
        occurrences(words.drop_last(), letter) + count_in(
            vstd::utf8::encode_utf8(words.last()@),
            letter,
        )
    }
}

/// The number of letters in all of `words` together.
pub open spec fn total_letters(words: Seq<String>) -> nat
    decreases words.len(),
{
    if words.len() == 0 {
        0
    } else {
        total_letters(words.drop_last()) + vstd::utf8::encode_utf8(words.last()@).len()
    }
}

/// How often each letter occurs in a word list.
#[derive(Clone, Debug)]
pub struct LetterCounts {
    /// For each byte value, the number of its occurrences.
    pub counts: Vec<u128>,
    /// The number of letters counted.
    pub total: u128,
}

impl LetterCounts {
    /// Whether these are the counts of `words`.
    pub open spec fn counts_of(&self, words: Seq<String>) -> bool {
        &&& self.counts@.len() == 256
        &&& self.total == total_letters(words)
        &&& forall|b: u8| #[trigger] self.counts@[b as int] == occurrences(words, b)
    }

    /// How often `letter` was counted; nothing, where the table has no
    /// place for it.
    pub fn of(&self, letter: u8) -> (n: u128)
        ensures
            n == if letter < self.counts@.len() {
                self.counts@[letter as int]
            } else {
                0
            },
    {
        if (letter as usize) < self.counts.len() {
            self.counts[letter as usize]
        } else {
            0
        }
    }
}

/// Counts the occurrences of each letter over all the letters of `words`,
/// repeated letters of a word included.
pub fn letter_counts(words: &Vec<String>) -> (table: LetterCounts)
    ensures
        table.counts_of(words@),
{
    let mut counts: Vec<u128> = Vec::new();
    let mut b: usize = 0;
    while b < 256
        invariant
            b <= 256,
            counts@.len() == b,
            forall|j: int| 0 <= j < b ==> counts@[j] == 0,
        decreases 256 - b,
    {
        counts.push(0);
        b += 1;
    }
    let mut total: u128 = 0;
    let mut i: usize = 0;
    while i < words.len()
        invariant
            i <= words@.len(),
            counts@.len() == 256,
            total == total_letters(words@.take(i as int)),
            total <= i * 0x1_0000_0000_0000_0000,
            forall|l: u8| #[trigger] counts@[l as int] == occurrences(words@.take(i as int), l),
            forall|l: u8| #[trigger] counts@[l as int] <= total,
        decreases words@.len() - i,
    {
        let bytes = words[i].as_str().as_bytes();
        let ghost seen = words@.take(i as int);
        let ghost base = total;
        assert(words@.take(i + 1).drop_last() =~= seen);
        assert(words@.take(i + 1).last() == words@[i as int]);
        let mut j: usize = 0;
        while j < bytes.len()
            invariant
                j <= bytes@.len(),
                i < words@.len(),
                counts@.len() == 256,
                total == base + j,
                base <= i * 0x1_0000_0000_0000_0000,
                forall|l: u8| #[trigger]
                    counts@[l as int] == occurrences(seen, l) + count_in(bytes@.take(j as int), l),
                forall|l: u8| #[trigger] counts@[l as int] <= total,
            decreases bytes@.len() - j,
        {
            let letter = bytes[j];
            assert(bytes@.take(j + 1).drop_last() =~= bytes@.take(j as int));
            assert(counts@[letter as int] <= total);
            let n = counts[letter as usize];
            counts[letter as usize] = n + 1;
            total += 1;
            j += 1;
            assert forall|l: u8| #[trigger]
                counts@[l as int] == occurrences(seen, l) + count_in(
                    bytes@.take(j as int),
                    l,
                ) by {
                if l != letter {
                    assert(l as int != letter as int);
                }
            }
        }
        assert(bytes@.take(j as int) =~= bytes@);
        i += 1;
    }
    assert(words@.take(i as int) =~= words@);
    LetterCounts { counts, total }
}

/// The letters of `word` in the order in which each is first met, each once.
pub open spec fn first_seen(word: Seq<u8>) -> Seq<u8>
    decreases word.len(),
{
    if word.len() == 0 {
        Seq::empty()
    } else {
        let before = first_seen(word.drop_last());
        if before.contains(word.last()) {
            before
        } else {
            before.push(word.last())
        }
    }
}

/// `Itertools::unique` over the bytes of the word, gathered into a vector:
/// each byte once, in the order of its first occurrence.
#[verifier::external_body]
fn unique_bytes(word: &str) -> (letters: Vec<u8>)
    ensures
        letters@ == first_seen(word.spec_bytes()),
{
    word.bytes().unique().collect()
}

/// The distinct letters of `word`, in the order in which each is first met:
/// the letters that a scoring strategy counts once.
pub fn distinct_letters(word: &str) -> (letters: Vec<u8>)
    ensures
        letters@ == first_seen(word.spec_bytes()),
        letters@.no_duplicates(),
        forall|b: u8| letters@.contains(b) <==> word.spec_bytes().contains(b),
{
    proof {
        lemma_first_seen(word.spec_bytes());
    }
    unique_bytes(word)
}

/// Every letter of a word is among its distinct letters, once, and no other.
pub proof fn lemma_first_seen(word: Seq<u8>)
    ensures
        first_seen(word).no_duplicates(),
        forall|b: u8|
            #![trigger first_seen(word).contains(b)]
            #![trigger word.contains(b)]
            first_seen(word).contains(b) <==> word.contains(b),
    decreases word.len(),
{
    if word.len() > 0 {
        let shorter = word.drop_last();
        let before = first_seen(shorter);
        lemma_first_seen(shorter);
        assert forall|b: u8|
            #![trigger first_seen(word).contains(b)]
            #![trigger word.contains(b)]
            first_seen(word).contains(b) <==> word.contains(b) by {
            if word.contains(b) {
                let i = choose|i: int| 0 <= i < word.len() && word[i] == b;
                if i < word.len() - 1 {
                    assert(shorter[i] == b);
                    assert(shorter.contains(b));
                    assert(before.contains(b));
                    let k = choose|k: int| 0 <= k < before.len() && before[k] == b;
                    assert(first_seen(word)[k] == b);
                } else {
                    if before.contains(b) {
                    } else {
                        assert(first_seen(word)[before.len() as int] == b);
                    }
                }
            }
            if first_seen(word).contains(b) {
                let k = choose|k: int| 0 <= k < first_seen(word).len() && first_seen(word)[k] == b;
                if k < before.len() {
                    assert(before[k] == b);
                    assert(before.contains(b));
                    assert(shorter.contains(b));
                    let i = choose|i: int| 0 <= i < shorter.len() && shorter[i] == b;
                    assert(word[i] == b);
                } else {
                    assert(word[word.len() - 1] == b);
                }
            }
        }
    }
}

} // verus!
