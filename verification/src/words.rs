//! The word list: one word on each line of a text.

use vstd::prelude::*;

verus! {

/// The parts into which the occurrences of `sep` cut `text`: one part more
/// than there are occurrences, each without `sep`, in order.
pub open spec fn pieces(text: Seq<char>, sep: char) -> Seq<Seq<char>>
    decreases text.len(),
{
    if text.len() == 0 {
        seq![Seq::empty()]
    } else {
        let before = pieces(text.drop_last(), sep);
        if text.last() == sep {
            before.push(Seq::empty())
        } else {
            before.drop_last().push(before.last().push(text.last()))
        }
    }
}

/// Whether `lines` are the lines of `text`, in order.
pub open spec fn lines_of(lines: Seq<&str>, text: Seq<char>) -> bool {
    &&& lines.len() == pieces(text, '\n').len()
    &&& forall|i: int| 0 <= i < lines.len() ==> (#[trigger] lines[i])@ == pieces(text, '\n')[i]
}

/// `str::split` at the line feed, gathered into a vector: the parts of the
/// text between line feeds, in order, an empty part included where two line
/// feeds meet or the text starts or ends with one.
#[verifier::external_body]
fn split_lines<'a>(text: &'a str) -> (lines: Vec<&'a str>)
    ensures
        lines_of(lines@, text@),
{
    text.split('\n').collect()
}

/// The words of a word list, one for each line of `text`.
pub fn all<'a>(text: &'a str) -> (words: Vec<&'a str>)
    ensures
        lines_of(words@, text@),
        words@.len() > 0,
{
    proof {
        lemma_pieces_len(text@, '\n');
    }
    split_lines(text)
}

/// A text has at least one part.
pub proof fn lemma_pieces_len(text: Seq<char>, sep: char)
    ensures
        pieces(text, sep).len() > 0,
    decreases text.len(),
{
    if text.len() > 0 {
        lemma_pieces_len(text.drop_last(), sep);
    }
}

} // verus!
