//! The search as a mathematical object: its state, one step of it, and what
//! holds of every state that it reaches.

use crate::dictionary::has_prefix;
use crate::enumeration::{
    advanced, extends, lemma_advanced, lemma_advanced_rises, lemma_place_bounds,
    lemma_place_rises, lemma_rank_bounds, lemma_rank_injective, place, rank, PATH_COUNT,
    RANK_LIMIT,
};
use crate::path::{is_disjoint, is_path};
use crate::text::{lemma_spelled_prefix, spelled};
use vstd::prelude::*;

verus! {

/// What the search has done so far.
pub struct SearchState {
    /// The path that the search looks at next.
    pub cursor: Seq<int>,
    /// The paths that it found to spell a word, in the order found.
    pub found: Seq<Seq<int>>,
    /// Whether it has looked at every path.
    pub finished: bool,
}

/// The state before the first step.
pub open spec fn initial() -> SearchState {
    SearchState { cursor: Seq::empty(), found: Seq::empty(), finished: false }
}

/// Whether `path` spells a word of `lexicon` on `puzzle`.
pub open spec fn is_word(lexicon: Set<Seq<u8>>, puzzle: Seq<Seq<u8>>, path: Seq<int>) -> bool {
    lexicon.contains(spelled(puzzle, path))
}

/// Whether some word of `lexicon` starts with what `path` spells on
/// `puzzle`.
pub open spec fn is_stem(lexicon: Set<Seq<u8>>, puzzle: Seq<Seq<u8>>, path: Seq<int>) -> bool {
    has_prefix(lexicon, spelled(puzzle, path))
}

/// Whether `path` is an answer: positions of the grid, none of them twice,
/// that spell a word.
pub open spec fn is_answer(lexicon: Set<Seq<u8>>, puzzle: Seq<Seq<u8>>, path: Seq<int>) -> bool {
    is_path(path) && is_disjoint(path) && is_word(lexicon, puzzle, path)
}

/// One step of the search. The cursor joins the paths found if it spells a
/// word. Then the search moves on: down, if some word starts with what the
/// cursor spells, else sideways or back. Where no move is left, the search
/// is finished and the cursor stays.
pub open spec fn stepped(
    lexicon: Set<Seq<u8>>,
    puzzle: Seq<Seq<u8>>,
    state: SearchState,
) -> SearchState {
    let found = if is_word(lexicon, puzzle, state.cursor) {
        state.found.push(state.cursor)
    } else {
        state.found
    };
    match advanced(state.cursor, is_stem(lexicon, puzzle, state.cursor)) {
        Some(next) => SearchState { cursor: next, found, finished: false },
        None => SearchState { cursor: state.cursor, found, finished: true },
    }
}

/// The state after `n` steps from `state`.
pub open spec fn ran(
    lexicon: Set<Seq<u8>>,
    puzzle: Seq<Seq<u8>>,
    state: SearchState,
    n: nat,
) -> SearchState
    decreases n,
{
    if n == 0 {
        state
    } else {
        stepped(lexicon, puzzle, ran(lexicon, puzzle, state, (n - 1) as nat))
    }
}

/// Whether the first `n` steps from `state` find no word and leave the
/// search unfinished.
#[verifier::opaque]
pub open spec fn quiet(
    lexicon: Set<Seq<u8>>,
    puzzle: Seq<Seq<u8>>,
    state: SearchState,
    n: nat,
) -> bool {
    forall|k: nat|
        k < n ==> {
            let before = #[trigger] ran(lexicon, puzzle, state, k);
            !is_word(lexicon, puzzle, before.cursor) && !stepped(lexicon, puzzle, before).finished
        }
}

/// What a run of the search reports, where its last step starts from
/// `before`: the cursor, if it spells a word and the step does not finish
/// the search.
pub open spec fn reported(
    lexicon: Set<Seq<u8>>,
    puzzle: Seq<Seq<u8>>,
    before: SearchState,
) -> Option<Seq<int>> {
    if !stepped(lexicon, puzzle, before).finished && is_word(lexicon, puzzle, before.cursor) {
        Some(before.cursor)
    } else {
        None
    }
}

/// Whether a run of `n` quiet steps and one more leads from `old` to `new`
/// and reports `word`.
pub open spec fn ticked(
    lexicon: Set<Seq<u8>>,
    puzzle: Seq<Seq<u8>>,
    old: SearchState,
    new: SearchState,
    word: Option<Seq<int>>,
    n: nat,
) -> bool {
    let before = ran(lexicon, puzzle, old, n);
    &&& quiet(lexicon, puzzle, old, n)
    &&& new == stepped(lexicon, puzzle, before)
    &&& word == reported(lexicon, puzzle, before)
}

/// What holds of every state that the search reaches from its start. The
/// paths found are answers, in rising order of rank, and none of them ranks
/// above the cursor. Every answer that ranks below the cursor has been
/// found; once the search is finished, every answer has.
#[verifier::opaque]
pub open spec fn searched(
    lexicon: Set<Seq<u8>>,
    puzzle: Seq<Seq<u8>>,
    state: SearchState,
) -> bool {
    &&& is_path(state.cursor)
    &&& is_disjoint(state.cursor)
    &&& forall|i: int|
        0 <= i < state.found.len() ==> {
            &&& is_answer(lexicon, puzzle, #[trigger] state.found[i])
            &&& rank(state.found[i]) <= rank(state.cursor)
            &&& !state.finished ==> rank(state.found[i]) < rank(state.cursor)
        }
    &&& forall|i: int, j: int|
        0 <= i < j < state.found.len() ==> rank(#[trigger] state.found[i]) < rank(
            #[trigger] state.found[j],
        )
    &&& forall|path: Seq<int>|
        #[trigger] is_answer(lexicon, puzzle, path) && (state.finished || rank(path) < rank(
            state.cursor,
        )) ==> state.found.contains(path)
}

/// The state before the first step is one that the search reaches.
pub proof fn lemma_initial_searched(lexicon: Set<Seq<u8>>, puzzle: Seq<Seq<u8>>)
    ensures
        searched(lexicon, puzzle, initial()),
{
    reveal(searched);
    assert forall|path: Seq<int>| #[trigger]
        is_answer(lexicon, puzzle, path) && rank(path) < rank(
            initial().cursor,
        ) implies initial().found.contains(path) by {
        lemma_rank_bounds(path);
    }
}

/// A path that extends another spells a word only if some word starts with
/// what the other spells.
pub proof fn lemma_stem(
    lexicon: Set<Seq<u8>>,
    puzzle: Seq<Seq<u8>>,
    shorter: Seq<int>,
    longer: Seq<int>,
)
    requires
        extends(shorter, longer),
        is_word(lexicon, puzzle, longer),
    ensures
        is_stem(lexicon, puzzle, shorter),
{
    lemma_spelled_prefix(puzzle, shorter, longer);
    assert(lexicon.contains(spelled(puzzle, longer)));
}

/// A step keeps what holds of every state that the search reaches, and
/// moves the cursor to a higher rank unless it finishes the search.
pub proof fn lemma_stepped_searched(
    lexicon: Set<Seq<u8>>,
    puzzle: Seq<Seq<u8>>,
    state: SearchState,
)
    requires
        searched(lexicon, puzzle, state),
        !state.finished,
    ensures
        searched(lexicon, puzzle, stepped(lexicon, puzzle, state)),
        !stepped(lexicon, puzzle, state).finished ==> rank(state.cursor) < rank(
            stepped(lexicon, puzzle, state).cursor,
        ),
        rank(stepped(lexicon, puzzle, state).cursor) < RANK_LIMIT,
{
    reveal(searched);
    let next = stepped(lexicon, puzzle, state);
    let descend = is_stem(lexicon, puzzle, state.cursor);
    lemma_advanced_rises(state.cursor, descend);
    lemma_rank_bounds(next.cursor);
    assert forall|path: Seq<int>| #[trigger]
        is_answer(lexicon, puzzle, path) && (next.finished || rank(path) < rank(
            next.cursor,
        )) implies next.found.contains(path) by {
        if rank(path) < rank(state.cursor) {
            let i = choose|i: int| 0 <= i < state.found.len() && state.found[i] == path;
            assert(next.found[i] == path);
        } else if rank(path) == rank(state.cursor) {
            lemma_rank_injective(path, state.cursor);
            assert(next.found[state.found.len() as int] == path);
        } else {
            lemma_advanced(state.cursor, descend, path);
            lemma_stem(lexicon, puzzle, state.cursor, path);
        }
    }
}

/// The cursor of a state that the search reaches is a disjoint path, and
/// its rank is below the limit.
pub proof fn lemma_rank_bounds_of(lexicon: Set<Seq<u8>>, puzzle: Seq<Seq<u8>>, state: SearchState)
    requires
        searched(lexicon, puzzle, state),
    ensures
        is_path(state.cursor),
        is_disjoint(state.cursor),
        0 <= rank(state.cursor) < RANK_LIMIT,
{
    reveal(searched);
    lemma_rank_bounds(state.cursor);
}

/// Once the search is finished, the paths found are the answers: each
/// path found is an answer, each answer has been found, and none of them
/// twice.
pub proof fn lemma_finished_found_all(
    lexicon: Set<Seq<u8>>,
    puzzle: Seq<Seq<u8>>,
    state: SearchState,
)
    requires
        searched(lexicon, puzzle, state),
        state.finished,
    ensures
        forall|path: Seq<int>|
            state.found.contains(path) <==> #[trigger] is_answer(lexicon, puzzle, path),
        state.found.no_duplicates(),
{
    reveal(searched);
    assert forall|path: Seq<int>| state.found.contains(path) implies #[trigger] is_answer(
        lexicon,
        puzzle,
        path,
    ) by {
        let i = choose|i: int| 0 <= i < state.found.len() && state.found[i] == path;
        assert(is_answer(lexicon, puzzle, state.found[i]));
    }
    assert forall|i: int, j: int|
        0 <= i < state.found.len() && 0 <= j < state.found.len() && i != j implies state.found[i]
        != state.found[j] by {
        if i < j {
            assert(rank(state.found[i]) < rank(state.found[j]));
        } else {
            assert(rank(state.found[j]) < rank(state.found[i]));
        }
    }
}

/// No step is a quiet run.
pub proof fn lemma_quiet_start(lexicon: Set<Seq<u8>>, puzzle: Seq<Seq<u8>>, state: SearchState)
    ensures
        quiet(lexicon, puzzle, state, 0),
{
    reveal(quiet);
}

/// A quiet run stays one with a further step that finds no word and does
/// not finish the search.
pub proof fn lemma_quiet_step(
    lexicon: Set<Seq<u8>>,
    puzzle: Seq<Seq<u8>>,
    state: SearchState,
    n: nat,
)
    requires
        quiet(lexicon, puzzle, state, n),
        !is_word(lexicon, puzzle, ran(lexicon, puzzle, state, n).cursor),
        !stepped(lexicon, puzzle, ran(lexicon, puzzle, state, n)).finished,
    ensures
        quiet(lexicon, puzzle, state, n + 1),
{
    reveal(quiet);
}

/// A quiet run of `n` steps leads to an unfinished state that the search
/// reaches, and raises the place of the cursor by `n` at least.
pub proof fn lemma_quiet_rises(
    lexicon: Set<Seq<u8>>,
    puzzle: Seq<Seq<u8>>,
    state: SearchState,
    n: nat,
)
    requires
        searched(lexicon, puzzle, state),
        !state.finished,
        quiet(lexicon, puzzle, state, n),
    ensures
        searched(lexicon, puzzle, ran(lexicon, puzzle, state, n)),
        !ran(lexicon, puzzle, state, n).finished,
        place(state.cursor) + n <= place(ran(lexicon, puzzle, state, n).cursor) < PATH_COUNT,
    decreases n,
{
    if n == 0 {
        lemma_rank_bounds_of(lexicon, puzzle, state);
        lemma_place_bounds(state.cursor);
    } else {
        let m = (n - 1) as nat;
        let before = ran(lexicon, puzzle, state, m);
        assert(quiet(lexicon, puzzle, state, m) && !stepped(lexicon, puzzle, before).finished) by {
            reveal(quiet);
            assert(ran(lexicon, puzzle, state, m) == before);
        }
        lemma_quiet_rises(lexicon, puzzle, state, m);
        lemma_stepped_placed(lexicon, puzzle, before);
    }
}

/// A step that does not finish the search moves the cursor to a disjoint
/// path of a higher place.
pub proof fn lemma_stepped_placed(lexicon: Set<Seq<u8>>, puzzle: Seq<Seq<u8>>, state: SearchState)
    requires
        searched(lexicon, puzzle, state),
        !state.finished,
    ensures
        searched(lexicon, puzzle, stepped(lexicon, puzzle, state)),
        0 <= place(state.cursor) < PATH_COUNT,
        !stepped(lexicon, puzzle, state).finished ==> place(state.cursor) < place(
            stepped(lexicon, puzzle, state).cursor,
        ) < PATH_COUNT,
{
    let next = stepped(lexicon, puzzle, state);
    lemma_stepped_searched(lexicon, puzzle, state);
    lemma_rank_bounds_of(lexicon, puzzle, state);
    lemma_rank_bounds_of(lexicon, puzzle, next);
    lemma_place_bounds(state.cursor);
    lemma_place_bounds(next.cursor);
    if !next.finished {
        lemma_place_rises(state.cursor, next.cursor);
    }
}

/// Running `a` steps and then `b` more is running `a + b` steps.
pub proof fn lemma_ran_add(
    lexicon: Set<Seq<u8>>,
    puzzle: Seq<Seq<u8>>,
    state: SearchState,
    a: nat,
    b: nat,
)
    ensures
        ran(lexicon, puzzle, ran(lexicon, puzzle, state, a), b) == ran(
            lexicon,
            puzzle,
            state,
            a + b,
        ),
    decreases b,
{
    if b > 0 {
        lemma_ran_add(lexicon, puzzle, state, a, (b - 1) as nat);
    }
}

/// Whether `path` holds four positions.
pub open spec fn is_full(path: Seq<int>) -> bool {
    path.len() == 4
}

/// Whether one of the full paths of `found` spells `word` on `puzzle`.
pub open spec fn spells_full(puzzle: Seq<Seq<u8>>, found: Seq<Seq<int>>, word: Seq<u8>) -> bool {
    exists|i: int|
        0 <= i < found.len() && is_full(#[trigger] found[i]) && spelled(puzzle, found[i]) == word
}

/// The words that the full paths of `found` spell on `puzzle`.
pub open spec fn full_words(puzzle: Seq<Seq<u8>>, found: Seq<Seq<int>>) -> Set<Seq<u8>> {
    Set::new(|word: Seq<u8>| spells_full(puzzle, found, word))
}

/// Whether one of the full paths of `found` holds `position`.
pub open spec fn covers(found: Seq<Seq<int>>, position: int) -> bool {
    exists|i: int|
        0 <= i < found.len() && is_full(#[trigger] found[i]) && found[i].contains(position)
}

/// Whether no position is on two of the full paths of `found`.
pub open spec fn apart(found: Seq<Seq<int>>) -> bool {
    forall|i: int, j: int, position: int|
        #![trigger found[i].contains(position), found[j].contains(position)]
        0 <= i < j < found.len() && is_full(found[i]) && is_full(found[j]) && found[i].contains(
            position,
        ) ==> !found[j].contains(position)
}

/// Whether the puzzle is solved: the search is finished, the full paths
/// that it found spell five different words or more, and they divide the
/// grid between them: every position of the grid is on one of them, and
/// none is on two.
pub open spec fn solved(puzzle: Seq<Seq<u8>>, state: SearchState) -> bool {
    &&& state.finished
    &&& full_words(puzzle, state.found).finite()
    &&& full_words(puzzle, state.found).len() >= 5
    &&& forall|position: int| 0 <= position < 20 ==> covers(state.found, position)
    &&& apart(state.found)
}

/// With one more path, no position is on two full paths if none was
/// before and, where the path is full, none of its positions was covered.
pub proof fn lemma_apart_push(found: Seq<Seq<int>>, path: Seq<int>)
    ensures
        apart(found.push(path)) == (apart(found) && (is_full(path) ==> forall|position: int|
            !(covers(found, position) && #[trigger] path.contains(position)))),
{
    let more = found.push(path);
    let last = found.len() as int;
    assert(more[last] == path);
    if apart(more) {
        assert forall|i: int, j: int, position: int|
            #![trigger found[i].contains(position), found[j].contains(position)]
            0 <= i < j < found.len() && is_full(found[i]) && is_full(found[j])
                && found[i].contains(position) implies !found[j].contains(position) by {
            assert(more[i] == found[i] && more[j] == found[j]);
            assert(more[i].contains(position));
        }
        if is_full(path) {
            assert forall|position: int|
                !(covers(found, position) && #[trigger] path.contains(position)) by {
                if covers(found, position) && path.contains(position) {
                    let i = choose|i: int|
                        0 <= i < found.len() && is_full(#[trigger] found[i])
                            && found[i].contains(position);
                    assert(more[i] == found[i]);
                    assert(more[i].contains(position) && more[last].contains(position));
                }
            }
        }
    }
    if apart(found) && (is_full(path) ==> forall|position: int|
        !(covers(found, position) && #[trigger] path.contains(position))) {
        assert forall|i: int, j: int, position: int|
            #![trigger more[i].contains(position), more[j].contains(position)]
            0 <= i < j < more.len() && is_full(more[i]) && is_full(more[j]) && more[i].contains(
                position,
            ) implies !more[j].contains(position) by {
            assert(more[i] == found[i]);
            if j < last {
                assert(more[j] == found[j]);
                assert(found[i].contains(position));
            } else {
                assert(covers(found, position));
                assert(!path.contains(position));
            }
        }
    }
}

/// Where a position is on two of the first full paths of a list, it is on
/// two full paths of the list.
pub proof fn lemma_apart_take(found: Seq<Seq<int>>, count: int)
    requires
        0 <= count <= found.len(),
        apart(found),
    ensures
        apart(found.take(count)),
{
    let first = found.take(count);
    assert forall|i: int, j: int, position: int|
        #![trigger first[i].contains(position), first[j].contains(position)]
        0 <= i < j < first.len() && is_full(first[i]) && is_full(first[j]) && first[i].contains(
            position,
        ) implies !first[j].contains(position) by {
        assert(first[i] == found[i] && first[j] == found[j]);
        assert(found[i].contains(position));
    }
}

/// With one more path, the words of the full paths are those before and,
/// if the path is full, the word that it spells.
pub proof fn lemma_full_words_push(puzzle: Seq<Seq<u8>>, found: Seq<Seq<int>>, path: Seq<int>)
    ensures
        full_words(puzzle, found.push(path)) == if is_full(path) {
            full_words(puzzle, found).insert(spelled(puzzle, path))
        } else {
            full_words(puzzle, found)
        },
{
    let more = found.push(path);
    let expected = if is_full(path) {
        full_words(puzzle, found).insert(spelled(puzzle, path))
    } else {
        full_words(puzzle, found)
    };
    assert forall|word: Seq<u8>| full_words(puzzle, more).contains(word) implies expected.contains(
        word,
    ) by {
        let i = choose|i: int|
            0 <= i < more.len() && is_full(#[trigger] more[i]) && spelled(puzzle, more[i]) == word;
        if i < found.len() {
            assert(found[i] == more[i]);
        }
    }
    assert forall|word: Seq<u8>| expected.contains(word) implies full_words(puzzle, more).contains(
        word,
    ) by {
        if spells_full(puzzle, found, word) {
            let i = choose|i: int|
                0 <= i < found.len() && is_full(#[trigger] found[i]) && spelled(puzzle, found[i])
                    == word;
            assert(more[i] == found[i]);
        } else {
            assert(more[found.len() as int] == path);
        }
    }
    assert(full_words(puzzle, more) =~= expected);
}

/// With one more path, the positions covered are those before and, if the
/// path is full, its own.
pub proof fn lemma_covers_push(found: Seq<Seq<int>>, path: Seq<int>, position: int)
    ensures
        covers(found.push(path), position) == (covers(found, position) || (is_full(path)
            && path.contains(position))),
{
    let more = found.push(path);
    if covers(more, position) {
        let i = choose|i: int|
            0 <= i < more.len() && is_full(#[trigger] more[i]) && more[i].contains(position);
        if i < found.len() {
            assert(found[i] == more[i]);
        }
    }
    if covers(found, position) {
        let i = choose|i: int|
            0 <= i < found.len() && is_full(#[trigger] found[i]) && found[i].contains(position);
        assert(more[i] == found[i]);
    }
    if is_full(path) && path.contains(position) {
        assert(more[found.len() as int] == path);
    }
}

/// Whether one of the first `count` paths of `found` spells `word` on
/// `puzzle`.
pub open spec fn spelled_among(
    puzzle: Seq<Seq<u8>>,
    found: Seq<Seq<int>>,
    count: int,
    word: Seq<u8>,
) -> bool {
    exists|j: int| 0 <= j < count && j < found.len() && spelled(puzzle, #[trigger] found[j]) == word
}

/// The paths of `found` that spell a word which no earlier path of `found`
/// spells, in their order.
pub open spec fn first_spellings(puzzle: Seq<Seq<u8>>, found: Seq<Seq<int>>) -> Seq<Seq<int>>
    decreases found.len(),
{
    if found.len() == 0 {
        Seq::empty()
    } else {
        let earlier = first_spellings(puzzle, found.drop_last());
        if spelled_among(puzzle, found, found.len() - 1, spelled(puzzle, found.last())) {
            earlier
        } else {
            earlier.push(found.last())
        }
    }
}

} // verus!
