//! The set of feedback gathered so far, kept free of contradictions.

use crate::cell::Cell;
use vstd::prelude::*;
use vstd::string::*;

verus! {

/// Whether two pieces of feedback cannot both be true of one word: they speak
/// of the same letter, and exactly one of them calls it absent.
pub open spec fn contradicts(a: Cell, b: Cell) -> bool {
    a.spec_byte() == b.spec_byte() && ((a is Grey) != (b is Grey))
}

/// Whether `cell` contradicts no member of `set`.
pub open spec fn compatible(set: Set<Cell>, cell: Cell) -> bool {
    forall|c: Cell| set.contains(c) ==> !contradicts(c, cell)
}

/// Whether no two members of `set` contradict each other.
pub open spec fn consistent(set: Set<Cell>) -> bool {
    forall|a: Cell, b: Cell| set.contains(a) && set.contains(b) ==> !contradicts(a, b)
}

/// `set` after `cell` was offered to it: a cell that contradicts a member is
/// dropped, any other becomes a member.
pub open spec fn offered(set: Set<Cell>, cell: Cell) -> Set<Cell> {
    if compatible(set, cell) {
        set.insert(cell)
    } else {
        set
    }
}

/// `set` after the members of `cells` were offered to it one by one, first to
/// last.
pub open spec fn offered_all(set: Set<Cell>, cells: Seq<Cell>) -> Set<Cell>
    decreases cells.len(),
{
    if cells.len() == 0 {
        set
    } else {
        offered(offered_all(set, cells.drop_last()), cells.last())
    }
}

/// Whether `word` is consistent with every member of `set`.
pub open spec fn accepts_all(set: Set<Cell>, word: Seq<u8>) -> bool {
    forall|c: Cell| set.contains(c) ==> c.accepts(word)
}

/// Whether every position that a member of `set` names lies inside a word of
/// `width` letters.
pub open spec fn all_fit(set: Set<Cell>, width: nat) -> bool {
    forall|c: Cell| set.contains(c) ==> c.fits(width)
}

/// Offering a cell keeps a consistent set consistent.
pub proof fn lemma_offered_consistent(set: Set<Cell>, cell: Cell)
    requires
        consistent(set),
    ensures
        consistent(offered(set, cell)),
{
}

/// Offering cells that fit keeps every named position inside the word.
pub proof fn lemma_offered_all_fit(set: Set<Cell>, cells: Seq<Cell>, width: nat)
    requires
        all_fit(set, width),
        forall|i: int| 0 <= i < cells.len() ==> (#[trigger] cells[i]).fits(width),
    ensures
        all_fit(offered_all(set, cells), width),
    decreases cells.len(),
{
    if cells.len() > 0 {
        lemma_offered_all_fit(set, cells.drop_last(), width);
    }
}

/// Offering cells keeps a consistent set consistent.
pub proof fn lemma_offered_all_consistent(set: Set<Cell>, cells: Seq<Cell>)
    requires
        consistent(set),
    ensures
        consistent(offered_all(set, cells)),
    decreases cells.len(),
{
    if cells.len() > 0 {
        lemma_offered_all_consistent(set, cells.drop_last());
        lemma_offered_consistent(offered_all(set, cells.drop_last()), cells.last());
    }
}

/// A deduplicated collection of feedback in which no letter is called both
/// absent and present.
pub struct Filters {
    cells: Vec<Cell>,
}

impl View for Filters {
    type V = Set<Cell>;

    closed spec fn view(&self) -> Set<Cell> {
        self.cells@.to_set()
    }
}

impl Filters {
    /// Nothing is stored twice, and no two members contradict each other.
    pub closed spec fn wf(&self) -> bool {
        &&& self.cells@.no_duplicates()
        &&& consistent(self@)
    }

    /// No two members of a well-formed collection contradict each other.
    pub proof fn lemma_consistent(&self)
        requires
            self.wf(),
        ensures
            consistent(self@),
    {
    }

    /// The empty set.
    pub fn new() -> (filters: Filters)
        ensures
            filters.wf(),
            filters@ == Set::<Cell>::empty(),
    {
        let filters = Filters { cells: Vec::new() };
        assert(filters@ =~= Set::<Cell>::empty());
        filters
    }

    /// The number of members.
    pub fn len(&self) -> (n: usize)
        requires
            self.wf(),
        ensures
            n == self@.len(),
            self@.finite(),
    {
        proof {
            self.cells@.unique_seq_to_set();
            vstd::seq_lib::seq_to_set_is_finite(self.cells@);
        }
        self.cells.len()
    }

    /// The members, each once.
    pub fn cells(&self) -> (cells: &Vec<Cell>)
        requires
            self.wf(),
        ensures
            cells@.no_duplicates(),
            cells@.to_set() == self@,
    {
        &self.cells
    }

    /// Whether `cell` is a member.
    pub fn contains(&self, cell: &Cell) -> (found: bool)
        ensures
            found == self@.contains(*cell),
    {
        let mut i: usize = 0;
        while i < self.cells.len()
            invariant
                i <= self.cells.len(),
                forall|j: int| 0 <= j < i ==> self.cells@[j] != *cell,
            decreases self.cells.len() - i,
        {
            if self.cells[i] == *cell {
                return true;
            }
            i += 1;
        }
        false
    }

    /// Whether `cell` could be added, that is, contradicts no member.
    pub fn is_compatible(&self, cell: &Cell) -> (ok: bool)
        ensures
            ok == compatible(self@, *cell),
    {
        let mut i: usize = 0;
        while i < self.cells.len()
            invariant
                i <= self.cells.len(),
                forall|j: int| 0 <= j < i ==> !contradicts(self.cells@[j], *cell),
            decreases self.cells.len() - i,
        {
            if clash(&self.cells[i], cell) {
                assert(self@.contains(self.cells@[i as int]));
                return false;
            }
            i += 1;
        }
        true
    }

    /// Offers one cell: it is dropped if it contradicts a member, and stored
    /// (once) otherwise. Returns whether it is a member afterwards.
    pub fn insert(&mut self, cell: Cell) -> (kept: bool)
        requires
            old(self).wf(),
        ensures
            final(self).wf(),
            final(self)@ == offered(old(self)@, cell),
            kept == compatible(old(self)@, cell),
            !kept ==> final(self)@ == old(self)@,
    {
        if !self.is_compatible(&cell) {
            return false;
        }
        if !self.contains(&cell) {
            proof {
                self.cells@.lemma_push_to_set_commute(cell);
                lemma_offered_consistent(self@, cell);
            }
            self.cells.push(cell);
        } else {
            assert(self@.insert(cell) =~= self@);
        }
        true
    }

    /// Offers each of `cells` in turn, first to last.
    pub fn add_filters(&mut self, cells: &Vec<Cell>)
        requires
            old(self).wf(),
        ensures
            final(self).wf(),
            final(self)@ == offered_all(old(self)@, cells@),
    {
        let mut i: usize = 0;
        while i < cells.len()
            invariant
                i <= cells.len(),
                self.wf(),
                self@ == offered_all(old(self)@, cells@.take(i as int)),
            decreases cells.len() - i,
        {
            assert(cells@.take(i + 1).drop_last() =~= cells@.take(i as int));
            self.insert(cells[i]);
            i += 1;
        }
        assert(cells@.take(i as int) =~= cells@);
    }

    /// Whether `word` is consistent with every member.
    pub fn accept(&self, word: &str) -> (ok: bool)
        requires
            all_fit(self@, word.spec_bytes().len()),
        ensures
            ok == accepts_all(self@, word.spec_bytes()),
    {
        let mut i: usize = 0;
        while i < self.cells.len()
            invariant
                i <= self.cells.len(),
                all_fit(self@, word.spec_bytes().len()),
                forall|j: int| 0 <= j < i ==> (#[trigger] self.cells@[j]).accepts(word.spec_bytes()),
            decreases self.cells.len() - i,
        {
            assert(self@.contains(self.cells@[i as int]));
            if !self.cells[i].accept(word) {
                return false;
            }
            i += 1;
        }
        true
    }
}

/// Whether two pieces of feedback contradict each other.
pub fn clash(a: &Cell, b: &Cell) -> (yes: bool)
    ensures
        yes == contradicts(*a, *b),
{
    let a_grey = match *a {
        Cell::Grey(_) => true,
        _ => false,
    };
    let b_grey = match *b {
        Cell::Grey(_) => true,
        _ => false,
    };
    a.byte() == b.byte() && a_grey != b_grey
}

} // verus!
