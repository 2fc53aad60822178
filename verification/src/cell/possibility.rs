//! The set of numbers that are still possible in one cell.

use vstd::prelude::*;
use crate::cell::{game_side, number_view, side, CellNumber};

verus! {

/// The number of `true` entries of `s`.
pub open spec fn count_true(s: Seq<bool>) -> nat
    decreases s.len(),
{
    if s.len() == 0 {
        0
    } else {
        count_true(s.drop_last()) + if s.last() {
            1nat
        } else {
            0nat
        }
    }
}

/// Entry `i` of `s` is `true` and no other entry is.
pub open spec fn is_only(s: Seq<bool>, i: int) -> bool {
    &&& 0 <= i < s.len()
    &&& s[i]
    &&& forall|j: int| 0 <= j < s.len() && j != i ==> !s[j]
}

/// Whether `number` is possible in `s`, where entry `number - 1` speaks of `number`.
pub open spec fn allows(s: Seq<bool>, number: int) -> bool {
    1 <= number <= s.len() && s[number - 1]
}

/// The sequence of `n` entries that are all `true`.
pub open spec fn full(n: int) -> Seq<bool> {
    Seq::new(n as nat, |i: int| true)
}

/// The sequence of `n` entries that are all `false`.
pub open spec fn vacant(n: int) -> Seq<bool> {
    Seq::new(n as nat, |i: int| false)
}

/// Entry by entry, what is `true` in both `a` and `b`.
pub open spec fn intersect(a: Seq<bool>, b: Seq<bool>) -> Seq<bool> {
    Seq::new(a.len(), |i: int| a[i] && b[i])
}

/// Entry by entry, what is `true` in `a` or in `b`.
pub open spec fn unite(a: Seq<bool>, b: Seq<bool>) -> Seq<bool> {
    Seq::new(a.len(), |i: int| a[i] || b[i])
}

/// A sequence without a `true` entry counts zero, and the other way round.
pub proof fn lemma_count_zero(s: Seq<bool>)
    ensures
        count_true(s) == 0 <==> forall|i: int| 0 <= i < s.len() ==> !s[i],
    decreases s.len(),
{
    if s.len() > 0 {
        lemma_count_zero(s.drop_last());
        if count_true(s) == 0 {
            assert forall|i: int| 0 <= i < s.len() implies !s[i] by {
                if i < s.len() - 1 {
                    assert(s.drop_last()[i] == s[i]);
                }
            }
        } else if forall|i: int| 0 <= i < s.len() ==> !s[i] {
            assert forall|i: int| 0 <= i < s.drop_last().len() implies !s.drop_last()[i] by {
                assert(s.drop_last()[i] == s[i]);
            }
        }
    }
}

/// A sequence counts one exactly if one of its entries is the only `true` one.
pub proof fn lemma_count_one(s: Seq<bool>)
    ensures
        count_true(s) == 1 <==> exists|i: int| is_only(s, i),
    decreases s.len(),
{
    if s.len() > 0 {
        let t = s.drop_last();
        let last = s.len() - 1;
        lemma_count_one(t);
        lemma_count_zero(t);
        assert forall|i: int| 0 <= i < t.len() implies t[i] == s[i] by {}
        if count_true(s) == 1 {
            if s.last() {
                assert(is_only(s, last));
            } else {
                let i = choose|i: int| is_only(t, i);
                assert(is_only(s, i));
            }
        }
        if exists|i: int| is_only(s, i) {
            let i = choose|i: int| is_only(s, i);
            if i == last {
                assert(count_true(t) == 0);
            } else {
                assert(is_only(t, i));
                assert(!s.last());
            }
        }
    }
}

/// The smallest possible number above `after`, if there is one.
pub open spec fn next_allowed(s: Seq<bool>, after: int) -> Option<int>
    decreases s.len() - after,
{
    if after < 0 || after >= s.len() {
        None
    } else if s[after] {
        Some(after + 1)
    } else {
        next_allowed(s, after + 1)
    }
}

/// `number` is possible, lies above `after`, and no number between them is possible.
pub open spec fn is_next_allowed(s: Seq<bool>, after: int, number: int) -> bool {
    &&& after < number
    &&& allows(s, number)
    &&& forall|m: int| after < m < number ==> !allows(s, m)
}

/// `next_allowed` finds the smallest possible number above `after`, and finds
/// none only where none is possible.
pub proof fn lemma_next_allowed(s: Seq<bool>, after: int)
    requires
        0 <= after,
    ensures
        next_allowed(s, after) matches Some(n) ==> is_next_allowed(s, after, n),
        next_allowed(s, after) is None ==> forall|m: int| after < m ==> !allows(s, m),
    decreases s.len() - after,
{
    if after < s.len() && !s[after] {
        lemma_next_allowed(s, after + 1);
        match next_allowed(s, after + 1) {
            Some(n) => {
                assert forall|m: int| after < m < n implies !allows(s, m) by {
                    if m > after + 1 {
                        assert(after + 1 < m < n);
                    }
                }
            },
            None => {
                assert forall|m: int| after < m implies !allows(s, m) by {
                    if m > after + 1 {
                        assert(after + 1 < m);
                    }
                }
            },
        }
    }
}

/// The one possible number of `s`, if exactly one is possible.
pub open spec fn sole(s: Seq<bool>) -> Option<int> {
    if count_true(s) == 1 {
        next_allowed(s, 0)
    } else {
        None
    }
}

/// Where entry `i` is the only `true` one, `i + 1` is the one possible number.
pub proof fn lemma_sole(s: Seq<bool>, i: int)
    requires
        is_only(s, i),
    ensures
        sole(s) == Some(i + 1),
{
    lemma_count_one(s);
    lemma_next_allowed(s, 0);
    assert(allows(s, i + 1));
    match next_allowed(s, 0) {
        Some(n) => {
            if n != i + 1 {
                assert(s[n - 1]);
            }
        },
        None => {
            assert(0 < i + 1);
        },
    }
}

/// Intersection does not depend on the order of its operands.
pub proof fn lemma_intersect_commutative(a: Seq<bool>, b: Seq<bool>)
    requires
        a.len() == b.len(),
    ensures
        intersect(a, b) == intersect(b, a),
{
    assert(intersect(a, b) =~= intersect(b, a));
}

/// Intersection with the full set changes nothing.
pub proof fn lemma_intersect_full(a: Seq<bool>)
    ensures
        intersect(a, full(a.len() as int)) == a,
        intersect(full(a.len() as int), a) == a,
{
    assert(intersect(a, full(a.len() as int)) =~= a);
    assert(intersect(full(a.len() as int), a) =~= a);
}

/// Intersection with the empty set is the empty set.
pub proof fn lemma_intersect_vacant(a: Seq<bool>)
    ensures
        intersect(a, vacant(a.len() as int)) == vacant(a.len() as int),
        intersect(vacant(a.len() as int), a) == vacant(a.len() as int),
{
    assert(intersect(a, vacant(a.len() as int)) =~= vacant(a.len() as int));
    assert(intersect(vacant(a.len() as int), a) =~= vacant(a.len() as int));
}

/// Intersection is associative, and a set intersected with itself is itself.
pub proof fn lemma_intersect_associative_idempotent(a: Seq<bool>, b: Seq<bool>, c: Seq<bool>)
    requires
        a.len() == b.len(),
        b.len() == c.len(),
    ensures
        intersect(intersect(a, b), c) == intersect(a, intersect(b, c)),
        intersect(a, a) == a,
{
    assert(intersect(intersect(a, b), c) =~= intersect(a, intersect(b, c)));
    assert(intersect(a, a) =~= a);
}

/// Union is commutative and associative.
pub proof fn lemma_unite_commutative_associative(a: Seq<bool>, b: Seq<bool>, c: Seq<bool>)
    requires
        a.len() == b.len(),
        b.len() == c.len(),
    ensures
        unite(a, b) == unite(b, a),
        unite(unite(a, b), c) == unite(a, unite(b, c)),
{
    assert(unite(a, b) =~= unite(b, a));
    assert(unite(unite(a, b), c) =~= unite(a, unite(b, c)));
}

/// `numbers` lists the possible numbers of `s`: all of them, each once, in
/// ascending order.
pub open spec fn lists<const SQUARE_SIZE: u8>(
    numbers: Seq<CellNumber<SQUARE_SIZE>>,
    s: Seq<bool>,
) -> bool {
    &&& numbers.len() == count_true(s)
    &&& forall|i: int, j: int| 0 <= i < j < numbers.len() ==> numbers[i]@ < numbers[j]@
    &&& forall|i: int| 0 <= i < numbers.len() ==> allows(s, #[trigger] numbers[i]@)
    &&& forall|n: int|
        allows(s, n) ==> exists|i: int| 0 <= i < numbers.len() && numbers[i]@ == n
}

/// Which numbers a cell can still take: entry `n - 1` says whether `n` is possible.
#[derive(Debug, PartialEq, Eq, PartialOrd, Ord, Hash)]
pub struct CellPossibilities<const SQUARE_SIZE: u8> {
    possibility: Vec<bool>,
}

impl<const SQUARE_SIZE: u8> View for CellPossibilities<SQUARE_SIZE> {
    type V = Seq<bool>;

    closed spec fn view(&self) -> Seq<bool> {
        self.possibility@
    }
}

impl<const SQUARE_SIZE: u8> Clone for CellPossibilities<SQUARE_SIZE> {
    fn clone(&self) -> (r: Self)
        ensures
            r@ == self@,
    {
        proof {
            use_type_invariant(self);
        }
        let possibility = self.possibility.clone();
        assert(possibility@ =~= self.possibility@);
        Self { possibility }
    }
}

impl<const SQUARE_SIZE: u8> Default for CellPossibilities<SQUARE_SIZE> {
    /// The set in which every number is possible.
    fn default() -> (r: Self)
        ensures
            r@ == full(side(SQUARE_SIZE)),
    {
        Self::new()
    }
}

impl<const SQUARE_SIZE: u8> CellPossibilities<SQUARE_SIZE> {
    #[verifier::type_invariant]
    spec fn sized(self) -> bool {
        self.possibility@.len() == side(SQUARE_SIZE)
    }

    fn filled(value: bool) -> (r: Self)
        ensures
            r@ == Seq::new(side(SQUARE_SIZE) as nat, |i: int| value),
    {
        let n: usize = game_side(SQUARE_SIZE);
        let mut possibility: Vec<bool> = Vec::new();
        while possibility.len() < n
            invariant
                n == side(SQUARE_SIZE),
                possibility@.len() <= n,
                forall|i: int| 0 <= i < possibility@.len() ==> possibility@[i] == value,
            decreases n - possibility.len(),
        {
            possibility.push(value);
        }
        assert(possibility@ =~= Seq::new(side(SQUARE_SIZE) as nat, |i: int| value));
        Self { possibility }
    }

    /// The set in which every number is possible.
    pub fn new() -> (r: Self)
        ensures
            r@ == full(side(SQUARE_SIZE)),
    {
        Self::filled(true)
    }

    /// The set in which no number is possible.
    pub fn new_no_possibility() -> (r: Self)
        ensures
            r@ == vacant(side(SQUARE_SIZE)),
    {
        Self::filled(false)
    }

    /// The length of every set: the side of the grid.
    pub fn len(&self) -> (r: usize)
        ensures
            r == self@.len(),
            r == side(SQUARE_SIZE),
    {
        proof {
            use_type_invariant(self);
        }
        self.possibility.len()
    }

    /// How many numbers are possible.
    pub fn number_of_possibility(&self) -> (r: usize)
        ensures
            r == count_true(self@),
    {
        let mut count: usize = 0;
        let mut index: usize = 0;
        while index < self.possibility.len()
            invariant
                index <= self.possibility@.len(),
                count == count_true(self.possibility@.take(index as int)),
                count <= index,
            decreases self.possibility@.len() - index,
        {
            proof {
                let next = self.possibility@.take(index + 1);
                assert(next.drop_last() =~= self.possibility@.take(index as int));
            }
            if self.possibility[index] {
                count = count + 1;
            }
            index = index + 1;
        }
        assert(self.possibility@.take(index as int) =~= self.possibility@);
        count
    }

    /// The one number that is possible, if there is exactly one.
    pub fn cell_number(&self) -> (r: Option<CellNumber<SQUARE_SIZE>>)
        ensures
            r is Some <==> count_true(self@) == 1,
            r matches Some(n) ==> is_only(self@, n@ - 1),
            number_view(r) == sole(self@),
    {
        proof {
            use_type_invariant(self);
        }
        let mut number: Option<CellNumber<SQUARE_SIZE>> = None;
        let mut index: usize = 0;
        while index < self.possibility.len()
            invariant
                self.possibility@.len() == side(SQUARE_SIZE),
                index <= self.possibility@.len(),
                number is None ==> forall|j: int| 0 <= j < index ==> !self.possibility@[j],
                number matches Some(n) ==> 0 <= n@ - 1 < index && is_only(
                    self.possibility@.take(index as int),
                    n@ - 1,
                ),
            decreases self.possibility@.len() - index,
        {
            if self.possibility[index] {
                if number.is_none() {
                    number = CellNumber::new(index + 1);
                } else {
                    proof {
                        lemma_count_one(self.possibility@);
                        let first = number->0@ - 1;
                        assert forall|i: int| !is_only(self.possibility@, i) by {
                            if is_only(self.possibility@, i) {
                                if i == first {
                                    assert(self.possibility@[index as int]);
                                } else {
                                    assert(self.possibility@.take(index as int)[first]);
                                }
                            }
                        }
                    }
                    return None;
                }
            }
            index = index + 1;
        }
        proof {
            lemma_count_one(self.possibility@);
            assert(self.possibility@.take(index as int) =~= self.possibility@);
            match number {
                Some(n) => {
                    lemma_sole(self.possibility@, n@ - 1);
                },
                None => {
                    assert forall|i: int| !is_only(self.possibility@, i) by {}
                },
            }
        }
        number
    }

    /// The possible numbers, in ascending order.
    pub fn into_vec(self) -> (r: Vec<CellNumber<SQUARE_SIZE>>)
        ensures
            lists(r@, self@),
    {
        proof {
            use_type_invariant(&self);
        }
        let mut numbers: Vec<CellNumber<SQUARE_SIZE>> = Vec::new();
        let mut index: usize = 0;
        while index < self.possibility.len()
            invariant
                self.possibility@.len() == side(SQUARE_SIZE),
                index <= self.possibility@.len(),
                numbers@.len() == count_true(self.possibility@.take(index as int)),
                forall|i: int, j: int| 0 <= i < j < numbers@.len() ==> numbers@[i]@ < numbers@[j]@,
                forall|i: int| 0 <= i < numbers@.len() ==> (#[trigger] numbers@[i]@) <= index
                    && allows(self.possibility@, numbers@[i]@),
                forall|n: int| n <= index && allows(self.possibility@, n) ==> exists|i: int|
                    0 <= i < numbers@.len() && numbers@[i]@ == n,
            decreases self.possibility@.len() - index,
        {
            proof {
                let next = self.possibility@.take(index + 1);
                assert(next.drop_last() =~= self.possibility@.take(index as int));
            }
            if self.possibility[index] {
                let number = CellNumber::new(index + 1);
                let ghost before = numbers@;
                numbers.push(number.unwrap());
                proof {
                    assert forall|n: int| n <= index + 1 && allows(self.possibility@, n) implies exists|
                        i: int,
                    | 0 <= i < numbers@.len() && numbers@[i]@ == n by {
                        if n <= index {
                            let i = choose|i: int| 0 <= i < before.len() && before[i]@ == n;
                            assert(numbers@[i]@ == n);
                        } else {
                            assert(numbers@[before.len() as int]@ == n);
                        }
                    }
                }
            }
            index = index + 1;
        }
        assert(self.possibility@.take(index as int) =~= self.possibility@);
        numbers
    }

    /// Whether `pos` is possible.
    pub fn get(&self, pos: CellNumber<SQUARE_SIZE>) -> (r: bool)
        ensures
            r == allows(self@, pos@),
    {
        proof {
            use_type_invariant(self);
        }
        self.possibility[pos.number() - 1]
    }

    /// Makes `pos` possible or not, as `value` says.
    pub fn set(&mut self, pos: CellNumber<SQUARE_SIZE>, value: bool)
        ensures
            final(self)@ == old(self)@.update(pos@ - 1, value),
    {
        proof {
            use_type_invariant(&*self);
        }
        self.possibility[pos.number() - 1] = value;
    }

    fn combine(&self, rhs: &Self, both: bool) -> (r: Self)
        ensures
            both ==> r@ == intersect(self@, rhs@),
            !both ==> r@ == unite(self@, rhs@),
    {
        proof {
            use_type_invariant(self);
            use_type_invariant(rhs);
        }
        let mut possibility: Vec<bool> = Vec::new();
        while possibility.len() < self.possibility.len()
            invariant
                self.possibility@.len() == rhs.possibility@.len(),
                possibility@.len() <= self.possibility@.len(),
                forall|i: int|
                    0 <= i < possibility@.len() ==> possibility@[i] == if both {
                        self.possibility@[i] && rhs.possibility@[i]
                    } else {
                        self.possibility@[i] || rhs.possibility@[i]
                    },
            decreases self.possibility@.len() - possibility@.len(),
        {
            let index = possibility.len();
            let entry = if both {
                self.possibility[index] && rhs.possibility[index]
            } else {
                self.possibility[index] || rhs.possibility[index]
            };
            possibility.push(entry);
        }
        proof {
            if both {
                assert(possibility@ =~= intersect(self@, rhs@));
            } else {
                assert(possibility@ =~= unite(self@, rhs@));
            }
        }
        Self { possibility }
    }

    /// The entries, from the one of `1` on.
    pub fn iter(&self) -> (r: core::slice::Iter<'_, bool>)
        ensures
            vstd::std_specs::iter::IteratorSpec::remaining(&r) == self@.as_ref(),
    {
        let entries = self.possibility.as_slice();
        proof {
            vstd::std_specs::slice::axiom_spec_slice_iter(entries);
        }
        entries.iter()
    }
}

impl<const SQUARE_SIZE: u8> vstd::std_specs::core::IndexSpecImpl<CellNumber<SQUARE_SIZE>> for CellPossibilities<SQUARE_SIZE> {
    open spec fn index_req(&self, index: &CellNumber<SQUARE_SIZE>) -> bool {
        true
    }
}

impl<const SQUARE_SIZE: u8> std::ops::Index<CellNumber<SQUARE_SIZE>> for CellPossibilities<SQUARE_SIZE> {
    type Output = bool;

    /// Whether `pos` is possible.
    fn index(&self, pos: CellNumber<SQUARE_SIZE>) -> (r: &bool)
        ensures
            *r == allows(self@, pos@),
    {
        proof {
            use_type_invariant(self);
        }
        &self.possibility[pos.number() - 1]
    }
}

impl<const SQUARE_SIZE: u8> std::ops::IndexMut<CellNumber<SQUARE_SIZE>> for CellPossibilities<SQUARE_SIZE> {
    /// The entry of `pos`, to be written.
    fn index_mut(&mut self, pos: CellNumber<SQUARE_SIZE>) -> (r: &mut bool)
        ensures
            *r == allows(old(self)@, pos@),
            final(self)@ == old(self)@.update(pos@ - 1, *final(r)),
    {
        proof {
            use_type_invariant(&*self);
        }
        &mut self.possibility[pos.number() - 1]
    }
}

impl<const SQUARE_SIZE: u8> vstd::std_specs::ops::BitAndSpecImpl for CellPossibilities<SQUARE_SIZE> {
    open spec fn obeys_bitand_spec() -> bool {
        false
    }

    open spec fn bitand_req(self, rhs: Self) -> bool {
        true
    }

    open spec fn bitand_spec(self, rhs: Self) -> Self {
        self
    }
}

impl<const SQUARE_SIZE: u8> std::ops::BitAnd for CellPossibilities<SQUARE_SIZE> {
    type Output = Self;

    /// The numbers that are possible in both `self` and `rhs`.
    fn bitand(self, rhs: Self) -> (r: Self)
        ensures
            r@ == intersect(self@, rhs@),
    {
        self.combine(&rhs, true)
    }
}

impl<const SQUARE_SIZE: u8> vstd::std_specs::ops::BitOrSpecImpl for CellPossibilities<SQUARE_SIZE> {
    open spec fn obeys_bitor_spec() -> bool {
        false
    }

    open spec fn bitor_req(self, rhs: Self) -> bool {
        true
    }

    open spec fn bitor_spec(self, rhs: Self) -> Self {
        self
    }
}

impl<const SQUARE_SIZE: u8> std::ops::BitOr for CellPossibilities<SQUARE_SIZE> {
    type Output = Self;

    /// The numbers that are possible in `self` or in `rhs`.
    fn bitor(self, rhs: Self) -> (r: Self)
        ensures
            r@ == unite(self@, rhs@),
    {
        self.combine(&rhs, false)
    }
}

} // verus!
