use vstd::prelude::*;
use vstd::set_lib::*;

verus! {

/// The state of one grid position as a mathematical value: the values that
/// are still possible for it, out of `0..size`, and whether its value has been
/// confirmed.
pub struct CellView {
    pub size: nat,
    pub candidates: Set<int>,
    pub fixed: bool,
}

impl CellView {
    /// The candidates form a finite set of values below `size`.
    pub open spec fn wf(self) -> bool {
        &&& self.candidates.finite()
        &&& forall|v: int| self.candidates.contains(v) ==> 0 <= v < self.size
    }

    /// A cell for which every value of `0..size` is still possible.
    pub open spec fn open(size: nat) -> CellView {
        CellView { size, candidates: set_int_range(0, size as int), fixed: false }
    }

    /// The value of the cell, if exactly one candidate is left.
    pub open spec fn resolved(self) -> Option<int> {
        if self.candidates.len() == 1 {
            Some(self.candidates.choose())
        } else {
            None
        }
    }

    /// The cell after `value` has been ruled out.
    pub open spec fn without(self, value: int) -> CellView {
        CellView { candidates: self.candidates.remove(value), ..self }
    }

    /// The cell after its candidates have been narrowed down to `value` alone.
    pub open spec fn collapsed(self, value: int) -> CellView {
        CellView { candidates: set![value], ..self }
    }

    /// The cell after `value` has been confirmed for it.
    pub open spec fn assigned(self, value: int) -> CellView {
        CellView { candidates: set![value], fixed: true, ..self }
    }

    /// A confirmed cell holds exactly one candidate.
    pub open spec fn settled(self) -> bool {
        self.fixed ==> self.candidates.len() == 1
    }

    /// Whether `value` may be ruled out: a confirmed cell keeps its own value.
    pub open spec fn may_strike(self, value: int) -> bool {
        !(self.fixed && self.resolved() == Some(value))
    }
}

/// A cell is resolved to `value` exactly when `value` is its only candidate.
pub proof fn lemma_resolved_iff_singleton(cell: CellView, value: int)
    requires
        cell.candidates.finite(),
    ensures
        cell.resolved() == Some(value) <==> cell.candidates == set![value],
{
    if cell.resolved() == Some(value) {
        Set::lemma_is_singleton(cell.candidates);
        assert(cell.candidates.contains(cell.candidates.choose()));
        assert(cell.candidates =~= set![value]);
    }
    if cell.candidates == set![value] {
        assert(set![value].is_singleton());
        set![value].lemma_singleton_size();
        assert(cell.candidates.contains(value));
    }
}

/// The indices below `bound` at which `flags` is set.
pub open spec fn flagged_below(flags: Seq<bool>, bound: int) -> Set<int> {
    Set::new(|v: int| 0 <= v < bound && v < flags.len() && flags[v])
}

/// Extending the bound by one index adds that index if its flag is set.
pub proof fn lemma_flagged_below_step(flags: Seq<bool>, bound: int)
    requires
        0 <= bound < flags.len(),
    ensures
        flagged_below(flags, bound).finite(),
        flagged_below(flags, bound).len() <= bound,
        !flagged_below(flags, bound).contains(bound),
        flags[bound] ==> flagged_below(flags, bound + 1) == flagged_below(flags, bound).insert(
            bound,
        ),
        !flags[bound] ==> flagged_below(flags, bound + 1) == flagged_below(flags, bound),
{
    lemma_flagged_below_finite(flags, bound);
    if flags[bound] {
        assert(flagged_below(flags, bound + 1) =~= flagged_below(flags, bound).insert(bound));
    } else {
        assert(flagged_below(flags, bound + 1) =~= flagged_below(flags, bound));
    }
}

/// No index lies below zero.
pub proof fn lemma_flagged_below_zero(flags: Seq<bool>)
    ensures
        flagged_below(flags, 0) == Set::<int>::empty(),
        flagged_below(flags, 0).len() == 0,
{
    assert(flagged_below(flags, 0) =~= Set::<int>::empty());
}

/// The flagged indices below a bound are finitely many, at most `bound`.
pub proof fn lemma_flagged_below_finite(flags: Seq<bool>, bound: int)
    requires
        0 <= bound,
    ensures
        flagged_below(flags, bound).finite(),
        flagged_below(flags, bound).len() <= bound,
{
    lemma_int_range(0, bound);
    assert(flagged_below(flags, bound).subset_of(set_int_range(0, bound)));
    lemma_len_subset(flagged_below(flags, bound), set_int_range(0, bound));
}

/// Captures the possible values of a single cell.
#[derive(Debug)]
pub struct Cell {
    pub possible_values: Vec<bool>,
    pub is_set: bool,
}

impl View for Cell {
    type V = CellView;

    open spec fn view(&self) -> CellView {
        CellView {
            size: self.possible_values@.len(),
            candidates: flagged_below(self.possible_values@, self.possible_values@.len() as int),
            fixed: self.is_set,
        }
    }
}

impl Clone for Cell {
    fn clone(&self) -> (copy: Self)
        ensures
            copy.possible_values@ == self.possible_values@,
            copy.is_set == self.is_set,
            copy@ == self@,
    {
        let possible_values = self.possible_values.clone();
        assert(possible_values@ =~= self.possible_values@);
        Cell { possible_values, is_set: self.is_set }
    }
}

impl Cell {
    /// The view of every cell is well formed.
    pub proof fn lemma_view_wf(&self)
        ensures
            self@.wf(),
    {
        lemma_flagged_below_finite(self.possible_values@, self.possible_values@.len() as int);
    }

    /// A cell of `size` values, all of them possible, none confirmed.
    pub fn new(size: usize) -> (cell: Self)
        ensures
            cell@ == CellView::open(size as nat),
    {
        let possible_values = vec![true; size];
        assert(flagged_below(possible_values@, size as int) =~= set_int_range(0, size as int));
        Cell { possible_values, is_set: false }
    }

    /// Rules `index` out as a value of this cell.
    pub fn strike_through(&mut self, index: usize)
        requires
            index < old(self)@.size,
            old(self)@.may_strike(index as int),
        ensures
            final(self)@ == old(self)@.without(index as int),
    {
        self.possible_values[index] = false;
        assert(self@.candidates =~= old(self)@.candidates.remove(index as int));
    }

    fn len(&self) -> (size: usize)
        ensures
            size == self@.size,
    {
        self.possible_values.len()
    }

    /// The value of this cell, if exactly one is still possible.
    pub fn get_value(&self) -> (value: Option<usize>)
        ensures
            match value {
                Some(v) => self@.resolved() == Some(v as int),
                None => self@.resolved() is None,
            },
    {
        let size = self.len();
        let mut count: usize = 0;
        let mut found: usize = 0;
        let mut i: usize = 0;
        proof {
            lemma_flagged_below_zero(self.possible_values@);
        }
        while i < size
            invariant
                i <= size,
                size == self.possible_values@.len(),
                count == flagged_below(self.possible_values@, i as int).len(),
                count <= i,
                count > 0 ==> flagged_below(self.possible_values@, i as int).contains(
                    found as int,
                ),
            decreases size - i,
        {
            proof {
                lemma_flagged_below_step(self.possible_values@, i as int);
            }
            if self.possible_values[i] {
                count += 1;
                found = i;
            }
            i += 1;
        }
        if count == 1 {
            proof {
                self.lemma_view_wf();
                Set::lemma_is_singleton(self@.candidates);
            }
            Some(found)
        } else {
            None
        }
    }

    /// The number of values that are still possible for this cell.
    pub fn possibilities(&self) -> (count: usize)
        ensures
            count == self@.candidates.len(),
    {
        let size = self.len();
        let mut count: usize = 0;
        let mut i: usize = 0;
        proof {
            lemma_flagged_below_zero(self.possible_values@);
        }
        while i < size
            invariant
                i <= size,
                size == self.possible_values@.len(),
                count == flagged_below(self.possible_values@, i as int).len(),
                count <= i,
            decreases size - i,
        {
            proof {
                lemma_flagged_below_step(self.possible_values@, i as int);
            }
            if self.possible_values[i] {
                count += 1;
            }
            i += 1;
        }
        count
    }

    /// Confirms `value` as the value of this cell.
    pub fn set_value(&mut self, value: usize)
        requires
            value < old(self)@.size,
        ensures
            final(self)@ == old(self)@.assigned(value as int),
    {
        self.prefill_value(value);
        self.is_set = true;
    }

    /// Narrows this cell down to `value` without confirming it.
    pub fn prefill_value(&mut self, value: usize)
        requires
            value < old(self)@.size,
        ensures
            final(self)@ == old(self)@.collapsed(value as int),
    {
        let size = self.len();
        let mut i: usize = 0;
        while i < size
            invariant
                i <= size,
                value < size,
                size == self.possible_values@.len(),
                self.is_set == old(self).is_set,
                forall|j: int| 0 <= j < i ==> self.possible_values@[j] == (j == value),
            decreases size - i,
        {
            self.possible_values[i] = i == value;
            i += 1;
        }
        assert(self@.candidates =~= set![value as int]);
    }
}

} // verus!
