//! The order in which the search visits paths.
//!
//! The search walks a tree: the children of a path are the paths that hold
//! one position more, in rising order of that position, and a path comes
//! before its children. [`rank`] numbers the paths in that order.
//! [`advanced`] is one move of the search, and [`lemma_advanced`] says which
//! paths a move passes over: none, unless the search declined to descend,
//! and then only paths below the one it stood on.

use crate::path::{
    appended, incremented, is_disjoint, is_path, lemma_largest_unused_exists,
    lemma_smallest_unused_above_exists, lemma_smallest_unused_exists, popped_and_incremented,
    smallest_unused, smallest_unused_above, FragmentPathError,
};
use vstd::prelude::*;

verus! {

/// One more than the number of ranks: no path has this rank or a higher one.
pub const RANK_LIMIT: usize = 194481;

/// The digit that place `i` of `s` contributes to its rank: zero for an
/// empty place, else one more than the position.
pub open spec fn digit(s: Seq<int>, i: int) -> int {
    if i < s.len() {
        s[i] + 1
    } else {
        0
    }
}

/// The number of `s` in the order of the search: its four digits, read in
/// base twenty-one.
pub open spec fn rank(s: Seq<int>) -> int {
    ((digit(s, 0) * 21 + digit(s, 1)) * 21 + digit(s, 2)) * 21 + digit(s, 3)
}

/// Whether `longer` starts with all of `shorter` and holds more.
pub open spec fn extends(shorter: Seq<int>, longer: Seq<int>) -> bool {
    &&& shorter.len() < longer.len()
    &&& forall|i: int| 0 <= i < shorter.len() ==> longer[i] == shorter[i]
}

/// Whether `t` agrees with `s` up to its last place, and holds a larger
/// position than `s` there.
pub open spec fn passes(s: Seq<int>, t: Seq<int>) -> bool {
    &&& 0 < t.len() <= s.len()
    &&& forall|i: int| 0 <= i < t.len() - 1 ==> t[i] == s[i]
    &&& s[t.len() - 1] < t[t.len() - 1]
}

/// One move of the search from `s`. Where `descend` holds and `s` is not
/// full, the move appends. Else it increments, or, where the last position
/// cannot rise, backtracks. `None` means that the search is over.
pub open spec fn advanced(s: Seq<int>, descend: bool) -> Option<Seq<int>> {
    if descend && appended(s) is Ok {
        Some(appended(s)->Ok_0)
    } else {
        match incremented(s) {
            Ok(t) => Some(t),
            Err(FragmentPathError::IndexOverflow) => match popped_and_incremented(s) {
                Ok(t) => Some(t),
                Err(_) => None,
            },
            Err(_) => None,
        }
    }
}

/// The path that the search stands on after `n` moves from the empty path,
/// descending wherever it can; `None` once the search is over.
pub open spec fn visited(n: nat) -> Option<Seq<int>>
    decreases n,
{
    if n == 0 {
        Some(Seq::<int>::empty())
    } else {
        match visited((n - 1) as nat) {
            Some(s) => advanced(s, true),
            None => None,
        }
    }
}

/// The rank of a path is below [`RANK_LIMIT`].
pub proof fn lemma_rank_bounds(s: Seq<int>)
    requires
        is_path(s),
    ensures
        0 <= rank(s) < RANK_LIMIT,
{
}

/// Paths of equal rank are equal.
pub proof fn lemma_rank_injective(a: Seq<int>, b: Seq<int>)
    requires
        is_path(a),
        is_path(b),
        rank(a) == rank(b),
    ensures
        a == b,
{
    assert(digit(a, 0) == digit(b, 0) && digit(a, 1) == digit(b, 1) && digit(a, 2) == digit(b, 2)
        && digit(a, 3) == digit(b, 3));
    assert(a.len() == b.len());
    assert(a =~= b);
}

/// Appending to a disjoint path that is not full gives the disjoint path
/// of the next rank.
pub proof fn lemma_appended(s: Seq<int>)
    requires
        is_path(s),
        is_disjoint(s),
        s.len() < 4,
    ensures
        appended(s) matches Ok(t) && is_path(t) && is_disjoint(t) && rank(s) < rank(t) && extends(
            s,
            t,
        ),
        forall|u: Seq<int>|
            is_path(u) && is_disjoint(u) && rank(s) < #[trigger] rank(u) ==> rank(
                appended(s)->Ok_0,
            ) <= rank(u),
{
    lemma_smallest_unused_exists(s);
    let n = smallest_unused(s);
    let t = s.push(n);
    assert forall|u: Seq<int>|
        is_path(u) && is_disjoint(u) && rank(s) < #[trigger] rank(u) implies rank(t) <= rank(
        u,
    ) by {
        if rank(u) < rank(t) {
            lemma_between_extends(s, t, u);
            let x = u[s.len() as int];
            assert(s.contains(x));
            let j = choose|j: int| 0 <= j < s.len() && s[j] == x;
            assert(u[j] == x);
        }
    }
}

/// A path that ranks between `s` and a path `t` that agrees with `s` on
/// the places before the last one of `t`, agrees with both on those places
/// and holds, at the last place of `t`, a position no larger than `t` does.
proof fn lemma_between_extends(s: Seq<int>, t: Seq<int>, u: Seq<int>)
    requires
        is_path(s),
        is_path(t),
        is_path(u),
        t.len() > 0,
        forall|i: int| 0 <= i < t.len() - 1 ==> digit(s, i) == digit(t, i),
        digit(s, t.len() - 1) < digit(t, t.len() - 1),
        rank(s) < rank(u) < rank(t),
    ensures
        u.len() >= t.len(),
        forall|i: int| 0 <= i < t.len() - 1 ==> u[i] == t[i],
        digit(s, t.len() - 1) <= digit(u, t.len() - 1) < digit(t, t.len() - 1),
{
    let k = t.len() - 1;
    assert(digit(t, 0) >= 1);
    if k >= 1 {
        assert(digit(s, 0) == digit(t, 0));
        assert(digit(u, 0) == digit(t, 0));
    }
    if k >= 2 {
        assert(digit(s, 1) == digit(t, 1));
        assert(digit(u, 1) == digit(t, 1));
    }
    if k >= 3 {
        assert(digit(s, 2) == digit(t, 2));
        assert(digit(u, 2) == digit(t, 2));
    }
    assert(forall|i: int| k < i < 4 ==> digit(t, i) == 0);
}

/// Incrementing a disjoint path, where that succeeds, gives a disjoint path
/// of higher rank, and every disjoint path that ranks between the two
/// extends the first.
pub proof fn lemma_incremented(s: Seq<int>)
    requires
        is_path(s),
        is_disjoint(s),
        incremented(s) is Ok,
    ensures
        incremented(s) matches Ok(t) && is_path(t) && is_disjoint(t) && rank(s) < rank(t)
            && t.len() == s.len() && passes(s, t),
        forall|u: Seq<int>|
            is_path(u) && is_disjoint(u) && rank(s) < #[trigger] rank(u) && !extends(s, u)
                ==> rank(incremented(s)->Ok_0) <= rank(u),
{
    let others = s.drop_last();
    let k = s.len() - 1;
    lemma_largest_unused_exists(others);
    lemma_smallest_unused_above_exists(others, s.last());
    let n = smallest_unused_above(others, s.last());
    let t = others.push(n);
    assert forall|u: Seq<int>|
        is_path(u) && is_disjoint(u) && rank(s) < #[trigger] rank(u) && !extends(
            s,
            u,
        ) implies rank(t) <= rank(u) by {
        if rank(u) < rank(t) {
            lemma_between_extends(s, t, u);
            let x = u[k];
            if x == s[k] {
                assert(forall|i: int| 0 <= i < s.len() ==> u[i] == s[i]);
                if u.len() == s.len() {
                    assert(u =~= s);
                }
            } else {
                assert(others.contains(x));
                let j = choose|j: int| 0 <= j < others.len() && others[j] == x;
                assert(u[j] == x);
            }
        }
    }
}

/// Where the last position of a disjoint path cannot rise, every disjoint
/// path of higher rank that does not extend the path lies outside what
/// extends the path without its last position.
pub proof fn lemma_level_exhausted(s: Seq<int>, u: Seq<int>)
    requires
        is_path(s),
        is_disjoint(s),
        incremented(s) == Err::<Seq<int>, FragmentPathError>(FragmentPathError::IndexOverflow),
        is_path(u),
        is_disjoint(u),
        rank(s) < rank(u),
        !extends(s, u),
    ensures
        rank(s.drop_last()) < rank(u),
        !extends(s.drop_last(), u),
{
    let others = s.drop_last();
    let k = s.len() - 1;
    lemma_largest_unused_exists(others);
    if extends(others, u) {
        let x = u[k];
        assert(forall|i: int| 0 <= i < k ==> digit(u, i) == digit(s, i));
        if x == s[k] {
            assert(forall|i: int| 0 <= i < s.len() ==> u[i] == s[i]);
            if u.len() == s.len() {
                assert(u =~= s);
            }
        } else {
            assert(x > s[k]);
            assert(others.contains(x));
            let j = choose|j: int| 0 <= j < others.len() && others[j] == x;
            assert(u[j] == x);
        }
    }
}

/// Backtracking from a disjoint path, where it succeeds, gives a disjoint
/// path of higher rank.
pub proof fn lemma_popped_and_incremented(s: Seq<int>)
    requires
        is_path(s),
        is_disjoint(s),
    ensures
        popped_and_incremented(s) matches Ok(t) ==> is_path(t) && is_disjoint(t) && rank(s) < rank(
            t,
        ) && passes(s, t) && t.len() < s.len(),
    decreases s.len(),
{
    if s.len() > 0 {
        let shorter = s.drop_last();
        match incremented(shorter) {
            Ok(t) => {
                lemma_incremented(shorter);
                lemma_passes(s, t);
            },
            Err(FragmentPathError::IndexOverflow) => {
                lemma_popped_and_incremented(shorter);
                if popped_and_incremented(shorter) is Ok {
                    lemma_passes(s, popped_and_incremented(shorter)->Ok_0);
                }
            },
            Err(_) => {},
        }
    }
}

/// A path ranks below every path that passes it.
pub proof fn lemma_passes(s: Seq<int>, t: Seq<int>)
    requires
        is_path(s),
        is_path(t),
        passes(s, t),
    ensures
        rank(s) < rank(t),
{
    let k = t.len() - 1;
    assert(forall|i: int| 0 <= i < k ==> digit(s, i) == digit(t, i));
    assert(digit(s, k) < digit(t, k));
    assert(digit(s, 0) <= 20 && digit(s, 1) <= 20 && digit(s, 2) <= 20 && digit(s, 3) <= 20);
}

/// Backtracking from a disjoint path reaches the first disjoint path that
/// ranks above the path without its last position and does not extend it;
/// it fails only where there is none.
pub proof fn lemma_backtracked(s: Seq<int>, u: Seq<int>)
    requires
        is_path(s),
        is_disjoint(s),
        s.len() > 0,
        is_path(u),
        is_disjoint(u),
        rank(s.drop_last()) < rank(u),
        !extends(s.drop_last(), u),
    ensures
        popped_and_incremented(s) matches Ok(t) && rank(t) <= rank(u),
    decreases s.len(),
{
    let shorter = s.drop_last();
    match incremented(shorter) {
        Ok(t) => {
            lemma_incremented(shorter);
        },
        Err(FragmentPathError::IndexOverflow) => {
            lemma_level_exhausted(shorter, u);
            lemma_backtracked(shorter, u);
        },
        Err(_) => {
            assert(shorter.len() == 0);
            assert(extends(shorter, u));
        },
    }
}

/// What a move of the search passes over. The move leads to a disjoint
/// path of higher rank. A disjoint path `u` that ranks above `s` ranks at
/// or above the path that the move leads to, unless the search declined to
/// descend and `u` extends `s`. Where the search is over, there is no such
/// path but those.
pub proof fn lemma_advanced(s: Seq<int>, descend: bool, u: Seq<int>)
    requires
        is_path(s),
        is_disjoint(s),
        is_path(u),
        is_disjoint(u),
        rank(s) < rank(u),
    ensures
        match advanced(s, descend) {
            Some(t) => rank(u) < rank(t) ==> !descend && extends(s, u),
            None => !descend && extends(s, u),
        },
{
    if descend && appended(s) is Ok {
        lemma_appended(s);
    } else if extends(s, u) {
        assert(s.len() < 4);
    } else {
        match incremented(s) {
            Ok(t) => {
                lemma_incremented(s);
            },
            Err(FragmentPathError::IndexOverflow) => {
                lemma_level_exhausted(s, u);
                lemma_backtracked(s, u);
            },
            Err(_) => {
                assert(extends(s, u));
            },
        }
    }
}

/// A move of the search from a disjoint path leads to a disjoint path of
/// higher rank.
pub proof fn lemma_advanced_rises(s: Seq<int>, descend: bool)
    requires
        is_path(s),
        is_disjoint(s),
    ensures
        advanced(s, descend) matches Some(t) ==> is_path(t) && is_disjoint(t) && rank(s) < rank(t),
{
    if descend && appended(s) is Ok {
        lemma_appended(s);
    } else {
        match incremented(s) {
            Ok(t) => {
                lemma_incremented(s);
            },
            Err(FragmentPathError::IndexOverflow) => {
                lemma_popped_and_incremented(s);
            },
            Err(_) => {},
        }
    }
}

/// Every path that the search visits holds positions of the grid, none of
/// them twice.
pub proof fn lemma_visited_disjoint(n: nat)
    ensures
        visited(n) matches Some(s) ==> is_path(s) && is_disjoint(s),
    decreases n,
{
    if n > 0 {
        lemma_visited_disjoint((n - 1) as nat);
        if visited((n - 1) as nat) is Some {
            lemma_advanced_rises(visited((n - 1) as nat)->Some_0, true);
        }
    }
}

/// The search visits paths in rising order of rank: what it reaches later
/// ranks higher.
pub proof fn lemma_visited_rises(n: nat, m: nat)
    requires
        n < m,
        visited(m) is Some,
    ensures
        visited(n) is Some,
        rank(visited(n)->Some_0) < rank(visited(m)->Some_0),
    decreases m,
{
    let before = (m - 1) as nat;
    lemma_visited_disjoint(before);
    lemma_advanced_rises(visited(before)->Some_0, true);
    if n < before {
        lemma_visited_rises(n, before);
    }
}

/// The search visits no path twice.
pub proof fn lemma_visited_once(n: nat, m: nat)
    requires
        visited(n) is Some,
        visited(n) == visited(m),
    ensures
        n == m,
{
    if n < m {
        lemma_visited_rises(n, m);
    } else if m < n {
        lemma_visited_rises(m, n);
    }
}

/// The search visits every sequence of up to four positions of the grid
/// that holds none of them twice.
pub proof fn lemma_every_path_visited(t: Seq<int>)
    requires
        is_path(t),
        is_disjoint(t),
    ensures
        exists|n: nat| visited(n) == Some(t),
{
    lemma_visited_from(t, 0);
}

/// From a path that ranks at or below `t`, the search goes on to visit `t`.
proof fn lemma_visited_from(t: Seq<int>, n: nat)
    requires
        is_path(t),
        is_disjoint(t),
        visited(n) is Some,
        rank(visited(n)->Some_0) <= rank(t),
    ensures
        exists|m: nat| visited(m) == Some(t),
    decreases rank(t) - rank(visited(n)->Some_0),
{
    let s = visited(n)->Some_0;
    lemma_visited_disjoint(n);
    if rank(s) == rank(t) {
        lemma_rank_injective(s, t);
        assert(visited(n) == Some(t));
    } else {
        lemma_advanced(s, true, t);
        lemma_advanced_rises(s, true);
        assert(visited(n + 1) == advanced(s, true));
        lemma_visited_from(t, n + 1);
    }
}

/// How many paths the search can stand on: the empty path and every
/// sequence of one to four positions of the grid that holds none twice.
pub const PATH_COUNT: usize = 123521;

/// How many of the positions before place `i` of `s` are smaller than the
/// position at place `i`.
pub open spec fn smaller_before(s: Seq<int>, i: int) -> int {
    (if 0 < i && s[0] < s[i] {
        1int
    } else {
        0int
    }) + (if 1 < i && s[1] < s[i] {
        1int
    } else {
        0int
    }) + (if 2 < i && s[2] < s[i] {
        1int
    } else {
        0int
    })
}

/// How many positions smaller than the one at place `i` of `s` the places
/// before it leave free.
pub open spec fn free_below(s: Seq<int>, i: int) -> int {
    s[i] - smaller_before(s, i)
}

/// The number of disjoint paths that the search stands on before it stands
/// on `s`. Each place of `s` counts the path that ends there, and, for each
/// smaller position that was free at that place, the paths that start with
/// it: 6176 of them at the first place, 325 at the second, 18 at the third
/// and one at the fourth.
pub open spec fn place(s: Seq<int>) -> int {
    (if s.len() > 0 {
        1 + free_below(s, 0) * 6176
    } else {
        0
    }) + (if s.len() > 1 {
        1 + free_below(s, 1) * 325
    } else {
        0
    }) + (if s.len() > 2 {
        1 + free_below(s, 2) * 18
    } else {
        0
    }) + (if s.len() > 3 {
        1 + free_below(s, 3)
    } else {
        0
    })
}

/// At each place of a disjoint path, the number of smaller positions left
/// free is at most the number of positions left free, less one.
pub proof fn lemma_free_below_bounds(s: Seq<int>, i: int)
    requires
        is_path(s),
        is_disjoint(s),
        0 <= i < s.len(),
    ensures
        0 <= free_below(s, i) <= 19 - i,
{
    assert(0 <= s[i] < 20);
    if i > 0 {
        assert(0 <= s[0] < 20 && s[0] != s[i]);
    }
    if i > 1 {
        assert(0 <= s[1] < 20 && s[1] != s[i] && s[0] != s[1]);
    }
    if i > 2 {
        assert(0 <= s[2] < 20 && s[2] != s[i] && s[0] != s[2] && s[1] != s[2]);
    }
}

/// The place of a disjoint path is below [`PATH_COUNT`].
pub proof fn lemma_place_bounds(s: Seq<int>)
    requires
        is_path(s),
        is_disjoint(s),
    ensures
        0 <= place(s) < PATH_COUNT,
{
    if s.len() > 0 {
        lemma_free_below_bounds(s, 0);
    }
    if s.len() > 1 {
        lemma_free_below_bounds(s, 1);
    }
    if s.len() > 2 {
        lemma_free_below_bounds(s, 2);
    }
    if s.len() > 3 {
        lemma_free_below_bounds(s, 3);
    }
}

/// Of two positions that the places before `i` leave free, the larger has
/// more free positions below it.
proof fn lemma_free_below_rises(a: Seq<int>, b: Seq<int>, i: int)
    requires
        is_path(a),
        is_disjoint(a),
        is_path(b),
        is_disjoint(b),
        0 <= i < a.len(),
        i < b.len(),
        forall|k: int| 0 <= k < i ==> a[k] == b[k],
        a[i] < b[i],
    ensures
        free_below(a, i) < free_below(b, i),
{
    assert(0 <= a[i] < 20 && 0 <= b[i] < 20);
    if i > 0 {
        assert(a[0] == b[0] && a[0] != a[i] && b[0] != b[i]);
    }
    if i > 1 {
        assert(a[1] == b[1] && a[1] != a[i] && b[1] != b[i] && a[0] != a[1]);
    }
    if i > 2 {
        assert(a[2] == b[2] && a[2] != a[i] && b[2] != b[i] && a[0] != a[2] && a[1] != a[2]);
    }
}

/// A disjoint path of higher rank has a higher place: the search stands on
/// the paths in the order of their places.
pub proof fn lemma_place_rises(a: Seq<int>, b: Seq<int>)
    requires
        is_path(a),
        is_disjoint(a),
        is_path(b),
        is_disjoint(b),
        rank(a) < rank(b),
    ensures
        place(a) < place(b),
{
    if a.len() > 0 {
        lemma_free_below_bounds(a, 0);
    }
    if a.len() > 1 {
        lemma_free_below_bounds(a, 1);
    }
    if a.len() > 2 {
        lemma_free_below_bounds(a, 2);
    }
    if a.len() > 3 {
        lemma_free_below_bounds(a, 3);
    }
    if b.len() > 0 {
        lemma_free_below_bounds(b, 0);
    }
    if b.len() > 1 {
        lemma_free_below_bounds(b, 1);
    }
    if b.len() > 2 {
        lemma_free_below_bounds(b, 2);
    }
    if b.len() > 3 {
        lemma_free_below_bounds(b, 3);
    }
    if digit(a, 0) != digit(b, 0) {
        assert(digit(a, 0) < digit(b, 0));
        if a.len() > 0 {
            lemma_free_below_rises(a, b, 0);
        }
    } else if digit(a, 1) != digit(b, 1) {
        assert(digit(a, 1) < digit(b, 1));
        assert(free_below(a, 0) == free_below(b, 0));
        if a.len() > 1 {
            lemma_free_below_rises(a, b, 1);
        }
    } else if digit(a, 2) != digit(b, 2) {
        assert(digit(a, 2) < digit(b, 2));
        assert(free_below(a, 0) == free_below(b, 0));
        assert(free_below(a, 1) == free_below(b, 1));
        if a.len() > 2 {
            lemma_free_below_rises(a, b, 2);
        }
    } else {
        assert(digit(a, 3) < digit(b, 3));
        assert(free_below(a, 0) == free_below(b, 0));
        assert(free_below(a, 1) == free_below(b, 1));
        assert(free_below(a, 2) == free_below(b, 2));
        if a.len() > 3 {
            lemma_free_below_rises(a, b, 3);
        }
    }
}

} // verus!
