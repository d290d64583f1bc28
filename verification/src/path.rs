//! Fragment paths: candidate words, written as the grid positions of the
//! fragments that spell them.
//!
//! A path holds at most four positions, filled from the left and vacated
//! from the right. Its mathematical model is the sequence of the positions it
//! holds, in order. The four transitions of the search ([`FragmentPath::append`],
//! [`FragmentPath::increment`], [`FragmentPath::pop`] and
//! [`FragmentPath::pop_and_increment`]) are specified as functions on that
//! sequence.

use crate::text::{
    empty_word, fragment_len, fragment_text, push_fragment, puzzle_bytes, spelled, word_bytes,
    FRAGMENT_CAPACITY, WORD_CAPACITY,
};
use fixedstr::{str32, str8};
use vstd::prelude::*;

verus! {

/// How many fragments the grid holds.
pub const FRAGMENT_COUNT: usize = 20;

/// The most fragments that one path can hold.
pub const PATH_CAPACITY: usize = 4;

/// Why a transition on a [`FragmentPath`] did not yield a path.
#[derive(Clone, Copy, Debug, PartialEq, Eq)]
pub enum FragmentPathError {
    /// The path is full, so nothing can be appended.
    Overflow,
    /// The path is empty, so nothing can be popped.
    Underflow,
    /// The rightmost position is the last that the other positions leave free.
    IndexOverflow,
    /// The path is empty, so it has no position to increment.
    CannotIncrementEmpty,
}

impl FragmentPathError {
    /// What [`FragmentPathError::message`] returns, as a sequence of characters.
    pub open spec fn message_text(self) -> Seq<char> {
        match self {
            FragmentPathError::Overflow => "fragment path is already full"@,
            FragmentPathError::Underflow => "fragment path is already empty"@,
            FragmentPathError::IndexOverflow => "fragment index is already at maximum"@,
            FragmentPathError::CannotIncrementEmpty => "fragment path is empty"@,
        }
    }

    /// A description of the error for a human reader.
    pub fn message(&self) -> (text: &'static str)
        ensures
            text@ == self.message_text(),
    {
        match self {
            FragmentPathError::Overflow => "fragment path is already full",
            FragmentPathError::Underflow => "fragment path is already empty",
            FragmentPathError::IndexOverflow => "fragment index is already at maximum",
            FragmentPathError::CannotIncrementEmpty => "fragment path is empty",
        }
    }
}

/// Whether `s` can be the content of a path: at most four positions, each
/// on the grid.
pub open spec fn is_path(s: Seq<int>) -> bool {
    &&& s.len() <= PATH_CAPACITY
    &&& forall|i: int| 0 <= i < s.len() ==> 0 <= #[trigger] s[i] < FRAGMENT_COUNT
}

/// Whether no position occurs twice in `s`.
pub open spec fn is_disjoint(s: Seq<int>) -> bool {
    forall|i: int, j: int| 0 <= i < j < s.len() ==> s[i] != s[j]
}

/// Whether `n` is a grid position that `s` does not hold.
pub open spec fn is_unused(s: Seq<int>, n: int) -> bool {
    0 <= n < FRAGMENT_COUNT && !s.contains(n)
}

/// The smallest grid position that `s` does not hold.
pub open spec fn smallest_unused(s: Seq<int>) -> int {
    choose|n: int| is_unused(s, n) && forall|m: int| is_unused(s, m) ==> n <= m
}

/// The largest grid position that `s` does not hold.
pub open spec fn largest_unused(s: Seq<int>) -> int {
    choose|n: int| is_unused(s, n) && forall|m: int| is_unused(s, m) ==> m <= n
}

/// The smallest grid position above `floor` that `s` does not hold.
pub open spec fn smallest_unused_above(s: Seq<int>, floor: int) -> int {
    choose|n: int|
        floor < n && is_unused(s, n) && forall|m: int| floor < m && is_unused(s, m) ==> n <= m
}

/// The result of appending to `s`: the smallest unused position goes behind
/// the last one, unless `s` is full.
pub open spec fn appended(s: Seq<int>) -> Result<Seq<int>, FragmentPathError> {
    if s.len() >= PATH_CAPACITY {
        Err(FragmentPathError::Overflow)
    } else {
        Ok(s.push(smallest_unused(s)))
    }
}

/// The result of incrementing `s`: the last position moves up to the next
/// one that the others leave free, unless it already is the last such.
pub open spec fn incremented(s: Seq<int>) -> Result<Seq<int>, FragmentPathError> {
    if s.len() == 0 {
        Err(FragmentPathError::CannotIncrementEmpty)
    } else if s.last() >= largest_unused(s.drop_last()) {
        Err(FragmentPathError::IndexOverflow)
    } else {
        Ok(s.drop_last().push(smallest_unused_above(s.drop_last(), s.last())))
    }
}

/// The result of popping `s`: the last position leaves, unless `s` is empty.
pub open spec fn popped(s: Seq<int>) -> Result<Seq<int>, FragmentPathError> {
    if s.len() == 0 {
        Err(FragmentPathError::Underflow)
    } else {
        Ok(s.drop_last())
    }
}

/// The result of backtracking from `s`: positions are popped until what is
/// left can be incremented, and that is incremented.
pub open spec fn popped_and_incremented(s: Seq<int>) -> Result<Seq<int>, FragmentPathError>
    decreases s.len(),
{
    if s.len() == 0 {
        Err(FragmentPathError::Underflow)
    } else {
        match incremented(s.drop_last()) {
            Err(FragmentPathError::IndexOverflow) => popped_and_incremented(s.drop_last()),
            other => other,
        }
    }
}

/// The content of the path that a transition returned, or its error.
pub open spec fn outcome(r: Result<FragmentPath, FragmentPathError>) -> Result<
    Seq<int>,
    FragmentPathError,
> {
    match r {
        Ok(p) => Ok(p@),
        Err(e) => Err(e),
    }
}

/// How many of `slots` are occupied, counted from the left.
pub open spec fn occupied(slots: [Option<usize>; 4]) -> nat {
    if slots[0] is None {
        0
    } else if slots[1] is None {
        1
    } else if slots[2] is None {
        2
    } else if slots[3] is None {
        3
    } else {
        4
    }
}

/// Whether `slots` has its occupied slots before its empty ones, each with
/// a position on the grid.
pub open spec fn acceptable(slots: [Option<usize>; 4]) -> bool {
    forall|i: int|
        0 <= i < 4 ==> if i < occupied(slots) {
            (#[trigger] slots[i]) is Some && slots[i].unwrap() < FRAGMENT_COUNT
        } else {
            slots[i] is None
        }
}

/// The positions that `slots` holds, in order.
pub open spec fn positions(slots: [Option<usize>; 4]) -> Seq<int> {
    Seq::new(occupied(slots), |i: int| slots[i].unwrap() as int)
}

/// The slot at place `i` of a path with content `s`.
pub open spec fn slot_at(s: Seq<int>, i: int) -> Option<usize> {
    if i < s.len() {
        Some(s[i] as usize)
    } else {
        None
    }
}

/// An ordered sequence of at most four grid positions.
#[derive(Clone, Copy, Debug, PartialEq, Eq)]
pub struct FragmentPath {
    slots: [Option<usize>; 4],
}

impl View for FragmentPath {
    type V = Seq<int>;

    closed spec fn view(&self) -> Seq<int> {
        positions(self.slots)
    }
}

impl Default for FragmentPath {
    /// The empty path.
    fn default() -> (r: FragmentPath)
        ensures
            r@ == Seq::<int>::empty(),
    {
        let r = FragmentPath { slots: [None, None, None, None] };
        assert(r@ =~= Seq::<int>::empty());
        r
    }
}

impl FragmentPath {
    /// The occupied slots stand before the empty ones, and each holds a
    /// position on the grid.
    #[verifier::type_invariant]
    closed spec fn well_formed(&self) -> bool {
        acceptable(self.slots)
    }

    /// The path with the given slots, if they are filled from the left with
    /// positions on the grid.
    pub fn from_slots(slots: [Option<usize>; 4]) -> (r: Option<FragmentPath>)
        ensures
            r is Some <==> acceptable(slots),
            r matches Some(p) ==> p@ == positions(slots),
    {
        let mut i: usize = 0;
        let mut open = true;
        while i < 4
            invariant
                i <= 4,
                open ==> occupied(slots) >= i,
                !open ==> occupied(slots) < i,
                forall|k: int|
                    0 <= k < i ==> if k < occupied(slots) {
                        (#[trigger] slots[k]) is Some && slots[k].unwrap() < FRAGMENT_COUNT
                    } else {
                        slots[k] is None
                    },
            decreases 4 - i,
        {
            match slots[i] {
                Some(index) => {
                    if index >= FRAGMENT_COUNT || !open {
                        return None;
                    }
                },
                None => {
                    open = false;
                },
            }
            i += 1;
        }
        Some(FragmentPath { slots })
    }

    /// How many positions the path holds.
    pub fn len(&self) -> (n: usize)
        ensures
            n == self@.len(),
            is_path(self@),
    {
        proof {
            use_type_invariant(self);
        }
        if self.slots[0].is_none() {
            0
        } else if self.slots[1].is_none() {
            1
        } else if self.slots[2].is_none() {
            2
        } else if self.slots[3].is_none() {
            3
        } else {
            4
        }
    }

    /// The position at place `i`, if the path holds that many.
    pub fn get(&self, i: usize) -> (r: Option<usize>)
        ensures
            r == slot_at(self@, i as int),
            is_path(self@),
    {
        proof {
            use_type_invariant(self);
        }
        if i < 4 {
            self.slots[i]
        } else {
            None
        }
    }

    /// The four slots of the path from the left; an empty slot is `None`.
    pub fn iter(&self) -> (r: Vec<Option<usize>>)
        ensures
            r@.len() == PATH_CAPACITY,
            forall|i: int| 0 <= i < 4 ==> r@[i] == slot_at(self@, i),
    {
        proof {
            use_type_invariant(self);
        }
        let mut r: Vec<Option<usize>> = Vec::new();
        r.push(self.slots[0]);
        r.push(self.slots[1]);
        r.push(self.slots[2]);
        r.push(self.slots[3]);
        r
    }

    /// Whether the path holds no position.
    pub fn is_empty(&self) -> (r: bool)
        ensures
            r == (self@.len() == 0),
    {
        self.slots[0].is_none()
    }

    /// Whether the path holds four positions.
    pub fn is_full(&self) -> (r: bool)
        ensures
            r == (self@.len() == PATH_CAPACITY),
    {
        proof {
            use_type_invariant(self);
        }
        self.slots[3].is_some()
    }

    /// Whether one of the first `count` positions of the path is `index`.
    fn holds_among(&self, count: usize, index: usize) -> (r: bool)
        requires
            count <= self@.len(),
        ensures
            r == self@.take(count as int).contains(index as int),
    {
        proof {
            use_type_invariant(self);
        }
        let mut i: usize = 0;
        while i < count
            invariant
                i <= count <= self@.len() <= 4,
                acceptable(self.slots),
                !self@.take(i as int).contains(index as int),
            decreases count - i,
        {
            if self.slots[i] == Some(index) {
                assert(self@.take(count as int)[i as int] == index);
                return true;
            }
            assert(self@.take(i + 1) =~= self@.take(i as int).push(self@[i as int]));
            i += 1;
        }
        false
    }

    /// Whether no position occurs twice in the path.
    pub fn is_disjoint(&self) -> (r: bool)
        ensures
            r == is_disjoint(self@),
    {
        proof {
            use_type_invariant(self);
        }
        let n = self.len();
        let mut seen = [false; 20];
        let mut i: usize = 0;
        while i < n
            invariant
                i <= n == self@.len() <= 4,
                acceptable(self.slots),
                is_disjoint(self@.take(i as int)),
                forall|x: int| 0 <= x < 20 ==> (seen[x] <==> self@.take(i as int).contains(x)),
            decreases n - i,
        {
            let index = self.slots[i].unwrap();
            assert(index == self@[i as int]);
            if seen[index] {
                proof {
                    let j = choose|j: int|
                        0 <= j < i && self@.take(i as int)[j] == index as int;
                    assert(self@[j] == self@[i as int]);
                }
                return false;
            }
            seen[index] = true;
            proof {
                let before = self@.take(i as int);
                let after = self@.take(i + 1);
                assert(after =~= before.push(index as int));
                assert forall|x: int| 0 <= x < 20 implies (seen[x] <==> after.contains(x)) by {
                    if x == index {
                        assert(after[i as int] == x);
                    } else if before.contains(x) {
                        let j = choose|j: int| 0 <= j < before.len() && before[j] == x;
                        assert(after[j] == x);
                    }
                }
            }
            i += 1;
        }
        assert(self@.take(n as int) =~= self@);
        true
    }

    /// The candidate word that the path spells: the fragments at its
    /// positions, one after the other. A fragment that announces more bytes
    /// than it has room for adds nothing.
    pub fn word(&self, fragments: &[str8; 20]) -> (word: str32)
        ensures
            word_bytes(word) == spelled(puzzle_bytes(*fragments), self@),
            word_bytes(word).len() <= WORD_CAPACITY,
    {
        proof {
            use_type_invariant(self);
        }
        let ghost puzzle = puzzle_bytes(*fragments);
        let count = self.len();
        let mut word = empty_word();
        let mut i: usize = 0;
        while i < count
            invariant
                i <= count == self@.len() <= 4,
                acceptable(self.slots),
                puzzle == puzzle_bytes(*fragments),
                word_bytes(word) == spelled(puzzle, self@.take(i as int)),
                word_bytes(word).len() <= FRAGMENT_CAPACITY * i,
            decreases count - i,
        {
            let index = self.slots[i].unwrap();
            let fragment = &fragments[index];
            assert(self@.take(i + 1).drop_last() =~= self@.take(i as int));
            assert(puzzle[index as int] == fragment_text(*fragment));
            if fragment_len(fragment) <= FRAGMENT_CAPACITY {
                push_fragment(&mut word, fragment);
            } else {
                assert(word_bytes(word) + Seq::<u8>::empty() =~= word_bytes(word));
            }
            i += 1;
        }
        assert(self@.take(count as int) =~= self@);
        word
    }

    /// Appends the smallest position that the path does not hold yet.
    ///
    /// Fails with [`FragmentPathError::Overflow`] on a full path.
    pub fn append(&self) -> (r: Result<FragmentPath, FragmentPathError>)
        ensures
            outcome(r) == appended(self@),
            r matches Ok(p) ==> is_path(p@),
    {
        proof {
            use_type_invariant(self);
        }
        let count = self.len();
        if count == PATH_CAPACITY {
            return Err(FragmentPathError::Overflow);
        }
        assert(self@.take(count as int) =~= self@);
        let mut next: usize = 0;
        while next < count && self.holds_among(count, next)
            invariant
                next <= count == self@.len() < 4,
                self@.take(count as int) == self@,
                forall|m: int| 0 <= m < next ==> self@.contains(m),
            decreases count - next,
        {
            next += 1;
        }
        proof {
            lemma_some_unused_at_most(self@, count as int);
            lemma_smallest_unused(self@, next as int);
        }
        let mut slots = self.slots;
        slots[count] = Some(next);
        let r = FragmentPath { slots };
        assert(r@ =~= self@.push(next as int));
        Ok(r)
    }

    /// Moves the last position up to the next one that the other positions
    /// leave free.
    ///
    /// Fails with [`FragmentPathError::CannotIncrementEmpty`] on an empty
    /// path, and with [`FragmentPathError::IndexOverflow`] where the last
    /// position is at or above the largest that the others leave free.
    pub fn increment(&self) -> (r: Result<FragmentPath, FragmentPathError>)
        ensures
            outcome(r) == incremented(self@),
            r matches Ok(p) ==> is_path(p@),
    {
        proof {
            use_type_invariant(self);
        }
        let count = self.len();
        if count == 0 {
            return Err(FragmentPathError::CannotIncrementEmpty);
        }
        let rightmost = count - 1;
        let ghost others = self@.drop_last();
        assert(self@.take(rightmost as int) =~= others);
        let mut stop: usize = FRAGMENT_COUNT - 1;
        while stop > 15 && self.holds_among(rightmost, stop)
            invariant
                15 <= stop <= 19,
                rightmost < self@.len() <= 4,
                self@.take(rightmost as int) == others,
                forall|m: int| stop < m < 20 ==> others.contains(m),
            decreases stop,
        {
            stop -= 1;
        }
        proof {
            if stop == 15 {
                lemma_some_unused_at_least(others, stop as int);
            }
            lemma_largest_unused(others, stop as int);
        }
        let current = self.slots[rightmost].unwrap();
        assert(current == self@.last());
        if current >= stop {
            return Err(FragmentPathError::IndexOverflow);
        }
        let mut next: usize = current + 1;
        while next < stop && self.holds_among(rightmost, next)
            invariant
                current < next <= stop <= 19,
                rightmost < self@.len() <= 4,
                self@.take(rightmost as int) == others,
                is_unused(others, stop as int),
                forall|m: int| current < m < next ==> others.contains(m),
            decreases stop - next,
        {
            next += 1;
        }
        proof {
            lemma_smallest_unused_above(others, current as int, next as int);
        }
        let mut slots = self.slots;
        slots[rightmost] = Some(next);
        let r = FragmentPath { slots };
        assert(r@ =~= others.push(next as int));
        Ok(r)
    }

    /// Removes the last position.
    ///
    /// Fails with [`FragmentPathError::Underflow`] on an empty path.
    pub fn pop(&self) -> (r: Result<FragmentPath, FragmentPathError>)
        ensures
            outcome(r) == popped(self@),
            r matches Ok(p) ==> is_path(p@),
    {
        proof {
            use_type_invariant(self);
        }
        let count = self.len();
        if count == 0 {
            return Err(FragmentPathError::Underflow);
        }
        let mut slots = self.slots;
        slots[count - 1] = None;
        let r = FragmentPath { slots };
        assert(r@ =~= self@.drop_last());
        Ok(r)
    }

    /// Removes positions from the right until what is left can be
    /// incremented, and increments that.
    ///
    /// Fails with [`FragmentPathError::Underflow`] on an empty path, and with
    /// [`FragmentPathError::CannotIncrementEmpty`] where no shorter path
    /// can be incremented.
    pub fn pop_and_increment(&self) -> (r: Result<FragmentPath, FragmentPathError>)
        ensures
            outcome(r) == popped_and_incremented(self@),
            r matches Ok(p) ==> is_path(p@),
    {
        let mut fragment = *self;
        loop
            invariant
                popped_and_incremented(fragment@) == popped_and_incremented(self@),
            decreases fragment@.len(),
        {
            fragment = match fragment.pop() {
                Ok(shorter) => shorter,
                Err(e) => {
                    return Err(e);
                },
            };
            match fragment.increment() {
                Ok(next) => {
                    return Ok(next);
                },
                Err(FragmentPathError::IndexOverflow) => {},
                Err(e) => {
                    return Err(e);
                },
            }
        }
    }
}

/// A sequence of `bound` positions or fewer leaves some position up to
/// `bound` unused.
pub proof fn lemma_some_unused_at_most(s: Seq<int>, bound: int)
    requires
        s.len() <= bound < FRAGMENT_COUNT,
    ensures
        exists|n: int| 0 <= n <= bound && is_unused(s, n),
{
    if forall|m: int| 0 <= m <= bound ==> s.contains(m) {
        let wanted = vstd::set_lib::set_int_range(0, bound + 1);
        vstd::set_lib::lemma_int_range(0, bound + 1);
        assert(wanted.subset_of(s.to_set()));
        s.lemma_cardinality_of_set();
        vstd::set_lib::lemma_len_subset(wanted, s.to_set());
    } else {
        let m = choose|m: int| 0 <= m <= bound && !s.contains(m);
        assert(is_unused(s, m));
    }
}

/// A sequence shorter than the number of positions from `bound` up, and
/// which holds every position above `bound`, does not hold `bound`.
pub proof fn lemma_some_unused_at_least(s: Seq<int>, bound: int)
    requires
        0 <= bound,
        s.len() < FRAGMENT_COUNT - bound,
        forall|m: int| bound < m < FRAGMENT_COUNT ==> s.contains(m),
    ensures
        is_unused(s, bound),
{
    if s.contains(bound) {
        let wanted = vstd::set_lib::set_int_range(bound, FRAGMENT_COUNT as int);
        vstd::set_lib::lemma_int_range(bound, FRAGMENT_COUNT as int);
        assert(wanted.subset_of(s.to_set()));
        s.lemma_cardinality_of_set();
        vstd::set_lib::lemma_len_subset(wanted, s.to_set());
    }
}

/// A position that is unused, with every smaller one used, is the smallest
/// unused position.
pub proof fn lemma_smallest_unused(s: Seq<int>, n: int)
    requires
        is_unused(s, n),
        forall|m: int| 0 <= m < n ==> s.contains(m),
    ensures
        smallest_unused(s) == n,
{
    assert(is_unused(s, n) && forall|m: int| is_unused(s, m) ==> n <= m);
}

/// A position that is unused, with every larger one used, is the largest
/// unused position.
pub proof fn lemma_largest_unused(s: Seq<int>, n: int)
    requires
        is_unused(s, n),
        forall|m: int| n < m < FRAGMENT_COUNT ==> s.contains(m),
    ensures
        largest_unused(s) == n,
{
    assert(is_unused(s, n) && forall|m: int| is_unused(s, m) ==> m <= n);
}

/// A position above `floor` that is unused, with every one between them
/// used, is the smallest unused position above `floor`.
pub proof fn lemma_smallest_unused_above(s: Seq<int>, floor: int, n: int)
    requires
        floor < n,
        is_unused(s, n),
        forall|m: int| floor < m < n ==> s.contains(m),
    ensures
        smallest_unused_above(s, floor) == n,
{
    assert(floor < n && is_unused(s, n) && forall|m: int|
        floor < m && is_unused(s, m) ==> n <= m);
}

/// The smallest unused position of a path that is not full exists, and is
/// at most the path's length.
pub proof fn lemma_smallest_unused_exists(s: Seq<int>)
    requires
        s.len() < FRAGMENT_COUNT,
    ensures
        is_unused(s, smallest_unused(s)),
        smallest_unused(s) <= s.len(),
        forall|m: int| 0 <= m < smallest_unused(s) ==> s.contains(m),
{
    lemma_some_unused_at_most(s, s.len() as int);
    let some = choose|n: int| 0 <= n <= s.len() && is_unused(s, n);
    let least = least_unused_from(s, 0, some);
    assert(is_unused(s, least) && forall|m: int| is_unused(s, m) ==> least <= m);
    assert forall|m: int| 0 <= m < smallest_unused(s) implies s.contains(m) by {
        assert(!is_unused(s, m));
    }
}

/// The least unused position from `low` up, given that `high` is unused.
proof fn least_unused_from(s: Seq<int>, low: int, high: int) -> (n: int)
    requires
        0 <= low <= high,
        is_unused(s, high),
    ensures
        low <= n <= high,
        is_unused(s, n),
        forall|m: int| low <= m < n ==> !is_unused(s, m),
    decreases high - low,
{
    if is_unused(s, low) {
        low
    } else {
        least_unused_from(s, low + 1, high)
    }
}

/// The greatest unused position up to `high`, given that `low` is unused.
proof fn greatest_unused_to(s: Seq<int>, low: int, high: int) -> (n: int)
    requires
        low <= high < FRAGMENT_COUNT,
        is_unused(s, low),
    ensures
        low <= n <= high,
        is_unused(s, n),
        forall|m: int| n < m <= high ==> !is_unused(s, m),
    decreases high - low,
{
    if is_unused(s, high) {
        high
    } else {
        greatest_unused_to(s, low, high - 1)
    }
}

/// The largest unused position of a sequence shorter than the grid exists.
pub proof fn lemma_largest_unused_exists(s: Seq<int>)
    requires
        s.len() < FRAGMENT_COUNT,
    ensures
        is_unused(s, largest_unused(s)),
        forall|m: int| largest_unused(s) < m < FRAGMENT_COUNT ==> s.contains(m),
{
    lemma_some_unused_at_most(s, s.len() as int);
    let some = choose|n: int| 0 <= n <= s.len() && is_unused(s, n);
    let greatest = greatest_unused_to(s, some, FRAGMENT_COUNT - 1);
    assert(is_unused(s, greatest) && forall|m: int| is_unused(s, m) ==> m <= greatest);
    assert forall|m: int| largest_unused(s) < m < FRAGMENT_COUNT implies s.contains(m) by {
        assert(!is_unused(s, m));
    }
}

/// Below the largest unused position, the smallest unused position above
/// `floor` exists.
pub proof fn lemma_smallest_unused_above_exists(s: Seq<int>, floor: int)
    requires
        s.len() < FRAGMENT_COUNT,
        0 <= floor < largest_unused(s),
    ensures
        floor < smallest_unused_above(s, floor) <= largest_unused(s),
        is_unused(s, smallest_unused_above(s, floor)),
        forall|m: int| floor < m < smallest_unused_above(s, floor) ==> s.contains(m),
{
    lemma_largest_unused_exists(s);
    let least = least_unused_from(s, floor + 1, largest_unused(s));
    assert(floor < least && is_unused(s, least) && forall|m: int|
        floor < m && is_unused(s, m) ==> least <= m);
    assert forall|m: int| floor < m < smallest_unused_above(s, floor) implies s.contains(m) by {
        assert(!is_unused(s, m));
    }
}

/// The largest position that a path leaves unused is nineteen less the
/// number of larger positions that it holds.
pub proof fn lemma_largest_unused_counts(s: Seq<int>)
    requires
        is_path(s),
    ensures
        s.to_set().filter(|x: int| x > largest_unused(s)).finite(),
        largest_unused(s) == 19 - s.to_set().filter(|x: int| x > largest_unused(s)).len(),
{
    lemma_largest_unused_exists(s);
    let ceiling = largest_unused(s);
    let above = s.to_set().filter(|x: int| x > ceiling);
    let range = vstd::set_lib::set_int_range(ceiling + 1, FRAGMENT_COUNT as int);
    vstd::set_lib::lemma_int_range(ceiling + 1, FRAGMENT_COUNT as int);
    assert forall|x: int| above.contains(x) implies range.contains(x) by {
        let i = choose|i: int| 0 <= i < s.len() && s[i] == x;
        assert(0 <= s[i] < FRAGMENT_COUNT);
    }
    assert(above =~= range);
}

/// Popping a full path four times leaves the empty path, and popping a
/// disjoint path leaves a disjoint one each time.
pub proof fn lemma_pop_to_empty(s: Seq<int>)
    requires
        s.len() == PATH_CAPACITY,
        is_disjoint(s),
    ensures
        ({
            &&& popped(s) matches Ok(three)
            &&& is_disjoint(three)
            &&& popped(three) matches Ok(two)
            &&& is_disjoint(two)
            &&& popped(two) matches Ok(one)
            &&& is_disjoint(one)
            &&& popped(one) == Ok::<Seq<int>, FragmentPathError>(Seq::empty())
        }),
{
    let three = s.drop_last();
    let two = three.drop_last();
    let one = two.drop_last();
    assert(one.drop_last() =~= Seq::<int>::empty());
}

} // verus!
