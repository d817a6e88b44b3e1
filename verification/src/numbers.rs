//! A set of exercise numbers that remembers the order in which they came.

use vstd::prelude::*;

verus! {

/// Distinct numbers, in the order of their first insertion.
#[derive(Debug, Clone, PartialEq, Eq)]
pub struct ExerciseNumberSet {
    numbers: Vec<i32>,
}

impl View for ExerciseNumberSet {
    type V = Seq<i32>;

    closed spec fn view(&self) -> Seq<i32> {
        self.numbers@
    }
}

/// `found` with `n` at its end, unless `found` holds `n` already.
pub open spec fn with_number(found: Seq<i32>, n: i32) -> Seq<i32> {
    if found.contains(n) {
        found
    } else {
        found.push(n)
    }
}

/// Adding a number keeps a sequence free of duplicates.
pub proof fn lemma_with_number_no_duplicates(found: Seq<i32>, n: i32)
    requires
        found.no_duplicates(),
    ensures
        with_number(found, n).no_duplicates(),
        with_number(found, n).contains(n),
        forall|m: i32| found.contains(m) ==> with_number(found, n).contains(m),
        found.is_prefix_of(with_number(found, n)),
{
    let after = with_number(found, n);
    if !found.contains(n) {
        assert(after[found.len() as int] == n);
        assert forall|m: i32| found.contains(m) implies after.contains(m) by {
            let i = choose|i: int| 0 <= i < found.len() && found[i] == m;
            assert(after[i] == m);
        }
    }
}

impl ExerciseNumberSet {
    /// No number stands twice.
    pub open spec fn wf(&self) -> bool {
        self@.no_duplicates()
    }

    /// The empty set.
    pub fn new() -> (r: Self)
        ensures
            r@ == Seq::<i32>::empty(),
            r.wf(),
    {
        ExerciseNumberSet { numbers: Vec::new() }
    }

    /// How many numbers the set holds.
    pub fn len(&self) -> (r: usize)
        ensures
            r == self@.len(),
    {
        self.numbers.len()
    }

    /// Whether the set holds no number.
    pub fn is_empty(&self) -> (r: bool)
        ensures
            r == (self@.len() == 0),
    {
        self.numbers.len() == 0
    }

    /// The number that came as the `i`-th, counted from 0.
    pub fn get(&self, i: usize) -> (r: Option<i32>)
        ensures
            r == if i < self@.len() { Some(self@[i as int]) } else { None },
    {
        if i < self.numbers.len() {
            Some(self.numbers[i])
        } else {
            None
        }
    }

    /// Whether the set holds `n`.
    pub fn contains(&self, n: i32) -> (r: bool)
        ensures
            r == self@.contains(n),
    {
        let mut i: usize = 0;
        while i < self.numbers.len()
            invariant
                i <= self.numbers@.len(),
                forall|j: int| 0 <= j < i ==> self.numbers@[j] != n,
            decreases self.numbers@.len() - i,
        {
            if self.numbers[i] == n {
                return true;
            }
            i += 1;
        }
        false
    }

    /// Puts `n` at the end unless the set holds it already; says whether it was new.
    pub fn insert(&mut self, n: i32) -> (added: bool)
        requires
            old(self).wf(),
        ensures
            added == !old(self)@.contains(n),
            final(self)@ == with_number(old(self)@, n),
            final(self).wf(),
    {
        proof {
            lemma_with_number_no_duplicates(self@, n);
        }
        if self.contains(n) {
            false
        } else {
            self.numbers.push(n);
            true
        }
    }

    /// The numbers, in the order in which they came.
    pub fn to_vec(&self) -> (r: Vec<i32>)
        ensures
            r@ == self@,
    {
        let mut r: Vec<i32> = Vec::new();
        let mut i: usize = 0;
        while i < self.numbers.len()
            invariant
                i <= self.numbers@.len(),
                r@ == self.numbers@.take(i as int),
            decreases self.numbers@.len() - i,
        {
            r.push(self.numbers[i]);
            proof {
                assert(self.numbers@.take(i as int).push(self.numbers@[i as int])
                    =~= self.numbers@.take(i + 1));
            }
            i += 1;
        }
        proof {
            assert(self.numbers@.take(i as int) =~= self.numbers@);
        }
        r
    }
}

} // verus!
