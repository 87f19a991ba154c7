//! A single cell of the grid and the set of numerals it may still take.

use vstd::prelude::*;

verus! {

/// One numeral together with a flag that says whether it is still a candidate.
#[derive(Clone, Copy)]
pub struct NumberPossible {
    number: u32,
    possible: bool,
}

impl NumberPossible {
    /// The numeral this entry stands for.
    pub closed spec fn number(self) -> u32 {
        self.number
    }

    /// Whether the numeral is still a candidate.
    pub closed spec fn possible(self) -> bool {
        self.possible
    }

    /// The numeral `value` as a candidate.
    pub fn new(value: u32) -> (r: NumberPossible)
        ensures
            r.number() == value,
            r.possible(),
    {
        NumberPossible { number: value, possible: true }
    }

    /// Says whether the numeral is a candidate from now on.
    pub fn set_possible(&mut self, value: bool)
        ensures
            final(self).number() == old(self).number(),
            final(self).possible() == value,
    {
        self.possible = value;
    }
}

/// The numerals of `s` that lie in `1..=k`, in ascending order.
pub open spec fn numerals_upto(s: Set<u32>, k: nat) -> Seq<u32>
    decreases k,
{
    if k == 0 {
        Seq::empty()
    } else if s.contains(k as u32) {
        numerals_upto(s, (k - 1) as nat).push(k as u32)
    } else {
        numerals_upto(s, (k - 1) as nat)
    }
}

/// `numerals_upto(s, k)` is strictly ascending and holds exactly the members
/// of `s` between 1 and `k`.
pub proof fn lemma_numerals_upto(s: Set<u32>, k: nat)
    requires
        k <= 9,
    ensures
        forall|i: int, j: int|
            0 <= i < j < numerals_upto(s, k).len() ==> numerals_upto(s, k)[i] < numerals_upto(
                s,
                k,
            )[j],
        forall|n: u32|
            #![trigger numerals_upto(s, k).contains(n)]
            #![trigger s.contains(n)]
            numerals_upto(s, k).contains(n) <==> (1 <= n <= k && s.contains(n)),
        numerals_upto(s, k).len() <= k,
    decreases k,
{
    if k > 0 {
        let prev = numerals_upto(s, (k - 1) as nat);
        lemma_numerals_upto(s, (k - 1) as nat);
        let cur = numerals_upto(s, k);
        if s.contains(k as u32) {
            assert(cur == prev.push(k as u32));
            assert(cur.len() == prev.len() + 1);
            assert(cur[prev.len() as int] == k as u32);
            assert forall|n: u32| cur.contains(n) <==> (1 <= n <= k && s.contains(n)) by {
                if cur.contains(n) {
                    let i = choose|i: int| 0 <= i < cur.len() && cur[i] == n;
                    if i < prev.len() {
                        assert(prev[i] == n);
                        assert(prev.contains(n));
                    } else {
                        assert(n == k as u32);
                    }
                }
                if 1 <= n <= k && s.contains(n) {
                    if n == k {
                        assert(cur[prev.len() as int] == n);
                    } else {
                        assert(prev.contains(n));
                        let i = choose|i: int| 0 <= i < prev.len() && prev[i] == n;
                        assert(cur[i] == n);
                    }
                }
            }
            assert forall|i: int, j: int| 0 <= i < j < cur.len() implies cur[i] < cur[j] by {
                assert(cur[i] == prev[i]);
                assert(prev.contains(prev[i]));
                if j < prev.len() {
                    assert(cur[j] == prev[j]);
                }
            }
        }
    }
}

/// The set of numerals between 1 and 9 that a cell may still take.
#[derive(Clone, Copy)]
pub struct Possiblities {
    possible_numbers: [NumberPossible; 9],
}

impl View for Possiblities {
    type V = Set<u32>;

    /// The numerals that are still candidates.
    closed spec fn view(&self) -> Set<u32> {
        Set::new(|n: u32| 1 <= n <= 9 && self.possible_numbers[n - 1].possible)
    }
}

impl Possiblities {
    /// Entry `i` stands for the numeral `i + 1`.
    pub closed spec fn wf(self) -> bool {
        forall|i: int| 0 <= i < 9 ==> (#[trigger] self.possible_numbers[i]).number == i + 1
    }

    /// Every candidate is a numeral between 1 and 9, so there are at most
    /// nine of them.
    pub proof fn lemma_view_bounded(self)
        ensures
            self@.finite(),
            self@.len() <= 9,
            forall|n: u32| #[trigger] self@.contains(n) ==> 1 <= n <= 9,
    {
        let all = full_set();
        lemma_full_set();
        assert(self@.subset_of(all));
        vstd::set_lib::lemma_len_subset(self@, all);
    }

    /// All nine numerals are candidates.
    pub fn default() -> (r: Possiblities)
        ensures
            r.wf(),
            r@ == full_set(),
    {
        let r = Possiblities {
            possible_numbers: [
                NumberPossible { number: 1, possible: true },
                NumberPossible { number: 2, possible: true },
                NumberPossible { number: 3, possible: true },
                NumberPossible { number: 4, possible: true },
                NumberPossible { number: 5, possible: true },
                NumberPossible { number: 6, possible: true },
                NumberPossible { number: 7, possible: true },
                NumberPossible { number: 8, possible: true },
                NumberPossible { number: 9, possible: true },
            ],
        };
        assert(r@ =~= full_set());
        r
    }

    /// Removes every candidate.
    pub fn clear(&mut self)
        requires
            old(self).wf(),
        ensures
            final(self).wf(),
            final(self)@ == Set::<u32>::empty(),
    {
        let mut i: usize = 0;
        while i < 9
            invariant
                i <= 9,
                self.wf(),
                forall|j: int| 0 <= j < i ==> !(#[trigger] self.possible_numbers[j]).possible,
            decreases 9 - i,
        {
            self.possible_numbers[i].set_possible(false);
            i += 1;
        }
        assert(self@ =~= Set::<u32>::empty());
    }

    /// Makes all nine numerals candidates again.
    pub fn reset(&mut self)
        requires
            old(self).wf(),
        ensures
            final(self).wf(),
            final(self)@ == full_set(),
    {
        let mut i: usize = 0;
        while i < 9
            invariant
                i <= 9,
                self.wf(),
                forall|j: int| 0 <= j < i ==> (#[trigger] self.possible_numbers[j]).possible,
            decreases 9 - i,
        {
            self.possible_numbers[i].set_possible(true);
            i += 1;
        }
        assert(self@ =~= full_set());
    }

    /// The candidates in ascending order. The sequence is computed afresh on
    /// every call.
    pub fn get_possible_numbers(&self) -> (r: Vec<u32>)
        requires
            self.wf(),
        ensures
            r@ == numerals_upto(self@, 9),
            r@.len() == self@.len(),
            forall|n: u32| #[trigger] r@.contains(n) <==> self@.contains(n),
            forall|i: int, j: int| 0 <= i < j < r@.len() ==> #[trigger] r@[i] < #[trigger] r@[j],
    {
        let mut possibile_nums: Vec<u32> = Vec::new();
        let mut i: usize = 0;
        while i < 9
            invariant
                i <= 9,
                self.wf(),
                possibile_nums@ == numerals_upto(self@, i as nat),
            decreases 9 - i,
        {
            let possiblity = self.possible_numbers[i];
            if possiblity.possible {
                possibile_nums.push(possiblity.number);
            }
            i += 1;
        }
        proof {
            lemma_numerals_upto(self@, 9);
            self.lemma_view_bounded();
            lemma_numerals_len(self@);
        }
        possibile_nums
    }

    /// Whether `number` is still a candidate. Numbers outside `1..=9` never
    /// are.
    pub fn contains(&self, number: u32) -> (r: bool)
        ensures
            r == self@.contains(number),
    {
        if 1 <= number && number <= 9 {
            self.possible_numbers[(number - 1) as usize].possible
        } else {
            false
        }
    }

    /// Removes `number` from the candidates and reports whether it was one.
    pub fn remove(&mut self, number: u32) -> (changed: bool)
        requires
            old(self).wf(),
        ensures
            final(self).wf(),
            final(self)@ == old(self)@.remove(number),
            changed == old(self)@.contains(number),
    {
        if 1 <= number && number <= 9 {
            let changed = self.possible_numbers[(number - 1) as usize].possible;
            self.possible_numbers[(number - 1) as usize].set_possible(false);
            assert(self@ =~= old(self)@.remove(number));
            changed
        } else {
            assert(self@ =~= old(self)@.remove(number));
            false
        }
    }

    /// Whether no candidate is left.
    pub fn is_empty(&self) -> (r: bool)
        ensures
            r == (self@ == Set::<u32>::empty()),
    {
        let mut i: usize = 0;
        while i < 9
            invariant
                i <= 9,
                forall|j: int| 0 <= j < i ==> !(#[trigger] self.possible_numbers[j]).possible,
            decreases 9 - i,
        {
            if self.possible_numbers[i].possible {
                assert(self@.contains((i + 1) as u32));
                return false;
            }
            i += 1;
        }
        assert(self@ =~= Set::<u32>::empty());
        true
    }

    /// Whether both hold the same candidates.
    pub fn same_as(&self, other: &Possiblities) -> (r: bool)
        ensures
            r == (self@ == other@),
    {
        let mut i: usize = 0;
        while i < 9
            invariant
                i <= 9,
                forall|j: int|
                    0 <= j < i ==> (#[trigger] self.possible_numbers[j]).possible
                        == other.possible_numbers[j].possible,
            decreases 9 - i,
        {
            if self.possible_numbers[i].possible != other.possible_numbers[i].possible {
                assert(self@.contains((i + 1) as u32) != other@.contains((i + 1) as u32));
                return false;
            }
            i += 1;
        }
        assert(self@ =~= other@);
        true
    }
}

/// The nine numerals of the game.
pub open spec fn full_set() -> Set<u32> {
    Set::new(|n: u32| 1 <= n <= 9)
}

/// The ascending sequence of a set of numerals is as long as the set.
pub proof fn lemma_numerals_len(s: Set<u32>)
    requires
        s.subset_of(full_set()),
    ensures
        s.finite(),
        numerals_upto(s, 9).len() == s.len(),
{
    lemma_full_set();
    vstd::set_lib::lemma_len_subset(s, full_set());
    lemma_numerals_upto(s, 9);
    let q = numerals_upto(s, 9);
    assert(q.no_duplicates());
    q.unique_seq_to_set();
    assert(q.to_set() =~= s);
}

/// `full_set()` has exactly nine members.
pub proof fn lemma_full_set()
    ensures
        full_set().finite(),
        full_set().len() == 9,
{
    let s = set![1u32, 2u32, 3u32, 4u32, 5u32, 6u32, 7u32, 8u32, 9u32];
    assert(full_set() =~= s);
}

/// What a cell is, mathematically: its value, 0 while it is unset, and the
/// numerals it may still take.
pub struct CellView {
    pub value: u32,
    pub candidates: Set<u32>,
}

/// A cell holds 0 or a numeral, its candidates are numerals, and a cell that
/// holds a numeral has no candidate left.
pub open spec fn cell_wf(c: CellView) -> bool {
    &&& c.value <= 9
    &&& c.candidates.subset_of(full_set())
    &&& c.value != 0 ==> c.candidates == Set::<u32>::empty()
}

/// The cell nothing is known about yet.
pub open spec fn blank_cell() -> CellView {
    CellView { value: 0, candidates: full_set() }
}

/// The cell that holds `value`.
pub open spec fn placed_cell(value: u32) -> CellView {
    CellView { value, candidates: Set::empty() }
}

/// One cell of the grid.
#[derive(Clone, Copy)]
pub struct Square {
    value: u32,
    possibilities: Possiblities,
}

impl View for Square {
    type V = CellView;

    closed spec fn view(&self) -> CellView {
        CellView { value: self.value, candidates: self.possibilities@ }
    }
}

impl Square {
    /// The representation of the candidates is sound.
    pub closed spec fn repr_ok(self) -> bool {
        self.possibilities.wf()
    }

    /// The cell is well formed: with a value it has no candidates.
    pub open spec fn wf(self) -> bool {
        self.repr_ok() && cell_wf(self@)
    }

    /// An unset cell with all nine candidates.
    pub fn default() -> (r: Square)
        ensures
            r.wf(),
            r@ == blank_cell(),
    {
        Square { value: 0, possibilities: Possiblities::default() }
    }

    /// Whether the cell is unset.
    pub fn is_empty(&self) -> (r: bool)
        ensures
            r == (self@.value == 0),
    {
        self.value == 0
    }

    /// The value of the cell, 0 while it is unset.
    pub fn get_value(&self) -> (r: u32)
        ensures
            r == self@.value,
    {
        self.value
    }

    /// Places `input_value`, which leaves the cell without candidates; with 0
    /// the cell becomes unset again and every numeral a candidate.
    pub fn set_value(&mut self, input_value: u32)
        requires
            old(self).wf(),
            input_value <= 9,
        ensures
            final(self).wf(),
            final(self)@ == if input_value == 0 {
                blank_cell()
            } else {
                placed_cell(input_value)
            },
    {
        self.value = input_value;
        if input_value == 0 {
            self.possibilities.reset();
        } else {
            self.possibilities.clear();
        }
    }

    /// The candidates in ascending order.
    pub fn get_possible_numbers(&self) -> (r: Vec<u32>)
        requires
            self.wf(),
        ensures
            r@ == numerals_upto(self@.candidates, 9),
            r@.len() == self@.candidates.len(),
            forall|n: u32| #[trigger] r@.contains(n) <==> self@.candidates.contains(n),
            forall|i: int, j: int| 0 <= i < j < r@.len() ==> #[trigger] r@[i] < #[trigger] r@[j],
    {
        self.possibilities.get_possible_numbers()
    }

    /// Removes `number` from the candidates and reports whether it was one.
    /// A cell that holds a value has no candidates, so nothing changes there.
    pub fn remove_possibility(&mut self, number: u32) -> (changed: bool)
        requires
            old(self).wf(),
        ensures
            final(self).wf(),
            final(self)@.value == old(self)@.value,
            final(self)@.candidates == old(self)@.candidates.remove(number),
            changed == old(self)@.candidates.contains(number),
    {
        let changed = self.possibilities.remove(number);
        assert(self@.value != 0 ==> self@.candidates =~= Set::<u32>::empty());
        changed
    }

    /// Removes each of `numbers` from the candidates and reports whether any
    /// of them was one.
    pub fn remove_possibilities(&mut self, numbers: &Vec<u32>) -> (changed: bool)
        requires
            old(self).wf(),
        ensures
            final(self).wf(),
            final(self)@.value == old(self)@.value,
            final(self)@.candidates == old(self)@.candidates.difference(numbers@.to_set()),
            changed == !old(self)@.candidates.disjoint(numbers@.to_set()),
    {
        let mut changed = false;
        let mut i: usize = 0;
        while i < numbers.len()
            invariant
                i <= numbers.len(),
                self.wf(),
                self@.value == old(self)@.value,
                self@.candidates == old(self)@.candidates.difference(
                    numbers@.take(i as int).to_set(),
                ),
                changed == !old(self)@.candidates.disjoint(numbers@.take(i as int).to_set()),
            decreases numbers.len() - i,
        {
            let ghost head = numbers@.take(i as int);
            let ghost longer = numbers@.take(i + 1);
            let ghost before = head.to_set();
            let ghost after = longer.to_set();
            proof {
                assert(longer == head.push(numbers@[i as int]));
                assert forall|n: u32| after.contains(n) <==> (before.contains(n) || n
                    == numbers@[i as int]) by {
                    if before.contains(n) {
                        let k = choose|k: int| 0 <= k < head.len() && head[k] == n;
                        assert(longer[k] == n);
                    }
                    if n == numbers@[i as int] {
                        assert(longer[i as int] == n);
                    }
                    if after.contains(n) {
                        let k = choose|k: int| 0 <= k < longer.len() && longer[k] == n;
                        if k < i {
                            assert(head[k] == n);
                        }
                    }
                }
            }
            let removed = self.possibilities.remove(numbers[i]);
            proof {
                assert(self@.candidates =~= old(self)@.candidates.difference(after));
                assert(self@.value != 0 ==> self@.candidates =~= Set::<u32>::empty());
                if removed {
                    assert(old(self)@.candidates.contains(numbers@[i as int]));
                    assert(after.contains(numbers@[i as int]));
                }
            }
            changed = removed || changed;
            i += 1;
        }
        assert(numbers@.take(numbers@.len() as int) == numbers@);
        changed
    }

    /// Whether both cells have the same candidates.
    pub fn same_candidates(&self, other: &Square) -> (r: bool)
        ensures
            r == (self@.candidates == other@.candidates),
    {
        self.possibilities.same_as(&other.possibilities)
    }

    /// Whether `number` is still a candidate.
    pub fn number_possible(&mut self, number: u32) -> (r: bool)
        ensures
            *final(self) == *old(self),
            r == old(self)@.candidates.contains(number),
    {
        self.possibilities.contains(number)
    }
}

} // verus!
