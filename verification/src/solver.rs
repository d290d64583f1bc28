//! The solver: a search that can be run in slices of time.

use crate::clock::{duration_nanos, reached};
use crate::dictionary::Dictionary;
use crate::enumeration::{advanced, lemma_place_bounds, place, rank, PATH_COUNT, RANK_LIMIT};
use crate::path::{is_path, FragmentPath, FragmentPathError};
use crate::search::{
    SearchState, apart, covers, first_spellings, full_words, initial, is_full, lemma_apart_push,
    lemma_apart_take, lemma_covers_push, lemma_full_words_push, lemma_initial_searched,
    lemma_quiet_rises, lemma_quiet_start, lemma_quiet_step, lemma_ran_add, lemma_rank_bounds_of,
    lemma_stepped_placed, lemma_stepped_searched, quiet, ran, reported, searched, solved, spelled_among, stepped, ticked,
};
use crate::text::{puzzle_bytes, spelled, word_as_bytes, word_bytes, WORD_CAPACITY};
use fixedstr::{str32, str8};
use std::rc::Rc;
use std::time::{Duration, Instant};
use vstd::prelude::*;

verus! {

/// The content of the path that a move returned, if it returned one.
pub open spec fn target(r: Option<FragmentPath>) -> Option<Seq<int>> {
    match r {
        Some(p) => Some(p@),
        None => None,
    }
}

/// The content of each path of a list.
pub open spec fn contents(paths: Seq<FragmentPath>) -> Seq<Seq<int>> {
    paths.map_values(|p: FragmentPath| p@)
}

/// One move of the search from `path`: down where `descend` holds and the
/// path is not full, else sideways or back. `None` where no move is left.
pub fn advance(path: &FragmentPath, descend: bool) -> (r: Option<FragmentPath>)
    ensures
        target(r) == advanced(path@, descend),
{
    if descend {
        match path.append() {
            Ok(next) => {
                return Some(next);
            },
            Err(_) => {},
        }
    }
    match path.increment() {
        Ok(next) => Some(next),
        Err(FragmentPathError::IndexOverflow) => match path.pop_and_increment() {
            Ok(next) => Some(next),
            Err(_) => None,
        },
        Err(_) => None,
    }
}

/// Whether two slices hold the same bytes.
fn same_bytes(a: &[u8], b: &[u8]) -> (r: bool)
    ensures
        r == (a@ == b@),
{
    if a.len() != b.len() {
        return false;
    }
    let mut i: usize = 0;
    while i < a.len()
        invariant
            i <= a@.len() == b@.len(),
            forall|k: int| 0 <= k < i ==> a@[k] == b@[k],
        decreases a@.len() - i,
    {
        if a[i] != b[i] {
            return false;
        }
        i += 1;
    }
    assert(a@ =~= b@);
    true
}

/// The bytes of each word of a list.
pub open spec fn texts(words: Seq<str32>) -> Seq<Seq<u8>> {
    words.map_values(|word: str32| word_bytes(word))
}

/// Whether each word of a list keeps to the room that a word has.
pub open spec fn fitting(words: Seq<str32>) -> bool {
    forall|k: int| 0 <= k < words.len() ==> word_bytes(#[trigger] words[k]).len() <= WORD_CAPACITY
}

/// Whether one of `words` holds the bytes of `word`.
fn holds_word(words: &Vec<str32>, word: &str32) -> (r: bool)
    requires
        fitting(words@),
        word_bytes(*word).len() <= WORD_CAPACITY,
    ensures
        r == texts(words@).contains(word_bytes(*word)),
{
    let mut i: usize = 0;
    while i < words.len()
        invariant
            i <= words@.len(),
            fitting(words@),
            word_bytes(*word).len() <= WORD_CAPACITY,
            forall|k: int| 0 <= k < i ==> texts(words@)[k] != word_bytes(*word),
        decreases words@.len() - i,
    {
        if same_bytes(word_as_bytes(&words[i]), word_as_bytes(word)) {
            assert(texts(words@)[i as int] == word_bytes(*word));
            return true;
        }
        i += 1;
    }
    false
}

/// Marks each position of `path` in `used`.
fn mark(used: &mut [bool; 20], path: &FragmentPath)
    ensures
        forall|x: int|
            0 <= x < 20 ==> #[trigger] final(used)[x] == (old(used)[x] || path@.contains(x)),
{
    let count = path.len();
    let mut i: usize = 0;
    while i < count
        invariant
            i <= count == path@.len(),
            forall|x: int|
                0 <= x < 20 ==> used[x] == (old(used)[x] || path@.take(i as int).contains(x)),
        decreases count - i,
    {
        let index = path.get(i).unwrap();
        used[index] = true;
        proof {
            let before = path@.take(i as int);
            let after = path@.take(i + 1);
            assert(after =~= before.push(index as int));
            assert forall|x: int| 0 <= x < 20 implies used[x] == (old(used)[x] || after.contains(
                x,
            )) by {
                if x == index {
                    assert(after[i as int] == x);
                } else if before.contains(x) {
                    let j = choose|j: int| 0 <= j < before.len() && before[j] == x;
                    assert(after[j] == x);
                }
            }
        }
        i += 1;
    }
    assert(path@.take(count as int) =~= path@);
}

/// Whether one of the positions of `path` is marked in `used`.
fn overlaps(used: &[bool; 20], path: &FragmentPath) -> (r: bool)
    ensures
        r == exists|x: int| 0 <= x < 20 && used[x] && #[trigger] path@.contains(x),
        is_path(path@),
{
    let count = path.len();
    let mut i: usize = 0;
    while i < count
        invariant
            i <= count == path@.len(),
            is_path(path@),
            forall|k: int| 0 <= k < i ==> !used[#[trigger] path@[k]],
        decreases count - i,
    {
        let index = path.get(i).unwrap();
        if used[index] {
            assert(path@.contains(index as int));
            return true;
        }
        i += 1;
    }
    assert forall|x: int| 0 <= x < 20 && used[x] implies !#[trigger] path@.contains(x) by {
        if path@.contains(x) {
            let k = choose|k: int| 0 <= k < path@.len() && path@[k] == x;
            assert(!used[path@[k]]);
        }
    }
    false
}

/// Whether every position is marked in `used`.
fn all_marked(used: &[bool; 20]) -> (r: bool)
    ensures
        r == forall|x: int| 0 <= x < 20 ==> used[x],
{
    let mut i: usize = 0;
    while i < 20
        invariant
            i <= 20,
            forall|x: int| 0 <= x < i ==> used[x],
        decreases 20 - i,
    {
        if !used[i] {
            return false;
        }
        i += 1;
    }
    true
}

/// `Rc::clone`: another handle on the same dictionary.
#[verifier::external_body]
fn share(dictionary: &Rc<Dictionary>) -> (r: Rc<Dictionary>)
    ensures
        r == dictionary,
{
    Rc::clone(dictionary)
}

/// Where a search stands after a run, as a caller sees it.
#[derive(Clone, Copy, Debug, PartialEq, Eq)]
pub enum Progress {
    /// The search is over; `solved` says whether the puzzle is solved.
    Finished { solved: bool },
    /// The run found the word that this path spells.
    Found(FragmentPath),
    /// The run found nothing, and the search goes on.
    Searching,
}

/// A search for the words of a puzzle, with what it has found so far.
#[derive(Debug)]
pub struct Solver {
    dictionary: Rc<Dictionary>,
    fragments: [str8; 20],
    path: FragmentPath,
    solution: Vec<FragmentPath>,
    is_finished: bool,
}

impl View for Solver {
    type V = SearchState;

    closed spec fn view(&self) -> SearchState {
        SearchState {
            cursor: self.path@,
            found: contents(self.solution@),
            finished: self.is_finished,
        }
    }
}

impl Solver {
    /// The words that the search looks for, each as its bytes.
    pub closed spec fn lexicon(&self) -> Set<Seq<u8>> {
        self.dictionary@
    }

    /// The bytes of the twenty fragments, in grid order.
    pub closed spec fn puzzle(&self) -> Seq<Seq<u8>> {
        puzzle_bytes(self.fragments)
    }

    /// The state is one that the search reaches from its start.
    #[verifier::type_invariant]
    closed spec fn well_formed(&self) -> bool {
        searched(self.lexicon(), self.puzzle(), self@)
    }

    /// A solver for the puzzle with the given fragments, before its first
    /// step.
    pub fn new(dictionary: Rc<Dictionary>, fragments: [str8; 20]) -> (r: Solver)
        ensures
            r@ == initial(),
            r.lexicon() == dictionary@,
            r.puzzle() == puzzle_bytes(fragments),
    {
        let path = FragmentPath::default();
        let solution: Vec<FragmentPath> = Vec::new();
        proof {
            lemma_initial_searched(dictionary@, puzzle_bytes(fragments));
            assert(contents(solution@) =~= initial().found);
        }
        Solver { dictionary, fragments, path, solution, is_finished: false }
    }

    /// Whether the search has looked at every path.
    pub fn is_finished(&self) -> (r: bool)
        ensures
            r == self@.finished,
    {
        self.is_finished
    }

    /// Takes one step of the search: the cursor joins the paths found if it
    /// spells a word, and moves on, or the search finishes where no move is
    /// left. Returns the solver, and the path of the word where the step
    /// found one and did not finish the search.
    ///
    /// A finished solver comes back unchanged.
    pub fn step(self) -> (r: (Solver, Option<FragmentPath>))
        ensures
            r.0.lexicon() == self.lexicon(),
            r.0.puzzle() == self.puzzle(),
            searched(r.0.lexicon(), r.0.puzzle(), r.0@),
            self@.finished ==> r.0@ == self@ && r.1 is None,
            !self@.finished ==> r.0@ == stepped(self.lexicon(), self.puzzle(), self@) && target(r.1)
                == reported(self.lexicon(), self.puzzle(), self@),
    {
        proof {
            use_type_invariant(&self);
        }
        if self.is_finished {
            return (self, None);
        }
        let ghost lexicon = self.lexicon();
        let ghost puzzle = self.puzzle();
        let ghost before = self@;
        proof {
            lemma_stepped_searched(lexicon, puzzle, before);
        }
        let Solver { dictionary, fragments, path, solution, is_finished } = self;
        let mut solution = solution;
        let word = path.word(&fragments);
        let bytes = word_as_bytes(&word);
        let found_word = dictionary.contains_bytes(bytes);
        if found_word {
            solution.push(path);
            assert(contents(solution@) =~= before.found.push(path@));
        }
        let descend = dictionary.contains_prefix_bytes(bytes);
        match advance(&path, descend) {
            Some(next) => {
                let word = if found_word {
                    Some(path)
                } else {
                    None
                };
                let solver = Solver { dictionary, fragments, path: next, solution, is_finished: false };
                (solver, word)
            },
            None => {
                let solver = Solver { dictionary, fragments, path, solution, is_finished: true };
                (solver, None)
            },
        }
    }

    /// Whether a run ends after a step: it does where the step found a
    /// word, where it finished the search, and where the time is up.
    pub fn run_ends(found: bool, finished: bool, timed_out: bool) -> (r: bool)
        ensures
            r == (found || finished || timed_out),
    {
        found || finished || timed_out
    }

    /// Runs the search until it finds a word, finishes, or has run for
    /// `duration`; it takes at least one step. Returns the solver, and the
    /// path of the word where it found one and is not finished.
    ///
    /// A finished solver comes back unchanged. With no time at all, the run
    /// is one step.
    pub fn solve(self, duration: Duration) -> (r: (Solver, Option<FragmentPath>))
        ensures
            r.0.lexicon() == self.lexicon(),
            r.0.puzzle() == self.puzzle(),
            searched(r.0.lexicon(), r.0.puzzle(), r.0@),
            self@.finished ==> r.0@ == self@ && r.1 is None,
            !self@.finished ==> exists|n: nat| #[trigger]
                ticked(self.lexicon(), self.puzzle(), self@, r.0@, target(r.1), n),
            !self@.finished && duration_nanos(duration) == 0 ==> ticked(
                self.lexicon(),
                self.puzzle(),
                self@,
                r.0@,
                target(r.1),
                0,
            ),
            !self@.finished && !r.0@.finished ==> rank(self@.cursor) < rank(r.0@.cursor),
    {
        proof {
            use_type_invariant(&self);
        }
        if self.is_finished {
            return (self, None);
        }
        let (solver, word, steps) = self.run(duration);
        assert(ticked(self.lexicon(), self.puzzle(), self@, solver@, target(word), steps@));
        (solver, word)
    }

    /// The run of an unfinished solver, with the number of quiet steps that
    /// it took before its last step.
    fn run(self, duration: Duration) -> (r: (Solver, Option<FragmentPath>, Ghost<nat>))
        requires
            !self@.finished,
        ensures
            r.0.lexicon() == self.lexicon(),
            r.0.puzzle() == self.puzzle(),
            searched(r.0.lexicon(), r.0.puzzle(), r.0@),
            ticked(self.lexicon(), self.puzzle(), self@, r.0@, target(r.1), r.2@),
            duration_nanos(duration) == 0 ==> r.2@ == 0,
            !r.0@.finished ==> rank(self@.cursor) < rank(r.0@.cursor),
    {
        proof {
            use_type_invariant(&self);
        }
        let ghost lexicon = self.lexicon();
        let ghost puzzle = self.puzzle();
        let ghost start = self@;
        let start_time = Instant::now();
        let mut solver = self;
        let ghost mut n: nat = 0;
        proof {
            lemma_quiet_start(lexicon, puzzle, start);
            lemma_rank_bounds_of(lexicon, puzzle, start);
        }
        loop
            invariant
                lexicon == self.lexicon(),
                puzzle == self.puzzle(),
                start == self@,
                solver.lexicon() == lexicon,
                solver.puzzle() == puzzle,
                solver@ == ran(lexicon, puzzle, start, n),
                !solver@.finished,
                quiet(lexicon, puzzle, start, n),
                searched(lexicon, puzzle, solver@),
                rank(start.cursor) <= rank(solver@.cursor) < RANK_LIMIT,
                duration_nanos(duration) == 0 ==> n == 0,
            decreases RANK_LIMIT - rank(solver@.cursor),
        {
            let ghost before = solver@;
            proof {
                lemma_stepped_searched(lexicon, puzzle, before);
            }
            let (next, word) = solver.step();
            let elapsed = Instant::now().duration_since(start_time);
            let timed_out = reached(&elapsed, &duration);
            if Self::run_ends(word.is_some(), next.is_finished(), timed_out) {
                return (next, word, Ghost(n));
            }
            solver = next;
            proof {
                lemma_quiet_step(lexicon, puzzle, start, n);
                n = n + 1;
            }
        }
    }

    /// Runs the search to its end. It takes no more steps than there are
    /// paths to stand on, since no step leads back to a path or past one
    /// that spells a word.
    pub fn solve_fully(self) -> (r: Solver)
        ensures
            r.lexicon() == self.lexicon(),
            r.puzzle() == self.puzzle(),
            r@.finished,
            searched(r.lexicon(), r.puzzle(), r@),
            exists|n: nat|
                n <= PATH_COUNT && r@ == #[trigger] ran(self.lexicon(), self.puzzle(), self@, n),
    {
        proof {
            use_type_invariant(&self);
        }
        let ghost lexicon = self.lexicon();
        let ghost puzzle = self.puzzle();
        let ghost start = self@;
        let ghost mut n: nat = 0;
        let mut solver = self;
        proof {
            lemma_rank_bounds_of(lexicon, puzzle, start);
            lemma_place_bounds(start.cursor);
        }
        while !solver.is_finished()
            invariant
                solver.lexicon() == lexicon,
                solver.puzzle() == puzzle,
                searched(lexicon, puzzle, solver@),
                solver@ == ran(lexicon, puzzle, start, n),
                n <= PATH_COUNT,
                !solver@.finished ==> place(start.cursor) + n <= place(solver@.cursor)
                    < PATH_COUNT,
                0 <= place(start.cursor),
            decreases
                    if solver@.finished {
                        0
                    } else {
                        PATH_COUNT - place(solver@.cursor)
                    },
        {
            let ghost before = solver@;
            let next = solver.solve(Duration::from_secs(u64::MAX));
            solver = next.0;
            proof {
                let m = choose|m: nat| #[trigger]
                    ticked(lexicon, puzzle, before, solver@, target(next.1), m);
                lemma_quiet_rises(lexicon, puzzle, before, m);
                lemma_stepped_placed(lexicon, puzzle, ran(lexicon, puzzle, before, m));
                lemma_ran_add(lexicon, puzzle, start, n, m + 1);
                n = n + m + 1;
                lemma_rank_bounds_of(lexicon, puzzle, solver@);
            }
        }
        solver
    }

    /// Whether the puzzle is solved: the search is finished, the full paths
    /// found spell at least five different words, and they divide the grid
    /// between them, so that every position is on one of them and none is
    /// on two.
    pub fn is_solved(&self) -> (r: bool)
        ensures
            r == solved(self.puzzle(), self@),
    {
        if !self.is_finished {
            return false;
        }
        let ghost puzzle = self.puzzle();
        let ghost found = self@.found;
        let mut words: Vec<str32> = Vec::new();
        let mut used = [false; 20];
        let mut i: usize = 0;
        assert(found.take(0) =~= Seq::<Seq<int>>::empty());
        assert(full_words(puzzle, found.take(0)) =~= texts(words@).to_set());
        while i < self.solution.len()
            invariant
                i <= found.len() == self.solution@.len(),
                found == contents(self.solution@),
                puzzle == puzzle_bytes(self.fragments),
                fitting(words@),
                texts(words@).no_duplicates(),
                texts(words@).to_set() == full_words(puzzle, found.take(i as int)),
                forall|x: int|
                    0 <= x < 20 ==> #[trigger] used[x] == covers(found.take(i as int), x),
                apart(found.take(i as int)),
            decreases found.len() - i,
        {
            let path = self.solution[i];
            let ghost earlier = found.take(i as int);
            let ghost marked = used;
            proof {
                assert(found.take(i + 1) =~= earlier.push(path@));
                lemma_full_words_push(puzzle, earlier, path@);
                lemma_apart_push(earlier, path@);
            }
            if path.is_full() {
                if overlaps(&used, &path) {
                    proof {
                        let x = choose|x: int|
                            0 <= x < 20 && used[x] && #[trigger] path@.contains(x);
                        assert(covers(earlier, x) && path@.contains(x));
                        if apart(found) {
                            lemma_apart_take(found, i + 1);
                        }
                    }
                    return false;
                }
                proof {
                    assert forall|x: int|
                        !(covers(earlier, x) && #[trigger] path@.contains(x)) by {
                        if path@.contains(x) {
                            let k = choose|k: int| 0 <= k < path@.len() && path@[k] == x;
                            assert(0 <= path@[k] < 20);
                            assert(used[x] == covers(earlier, x));
                        }
                    }
                }
                let word = path.word(&self.fragments);
                let ghost before = texts(words@);
                if !holds_word(&words, &word) {
                    words.push(word);
                    proof {
                        assert(texts(words@) =~= before.push(word_bytes(word)));
                        before.lemma_push_to_set_commute(word_bytes(word));
                    }
                } else {
                    assert(before.to_set().insert(word_bytes(word)) =~= before.to_set());
                }
                mark(&mut used, &path);
            }
            proof {
                assert forall|x: int| 0 <= x < 20 implies used[x] == covers(
                    found.take(i + 1),
                    x,
                ) by {
                    lemma_covers_push(earlier, path@, x);
                    assert(marked[x] == covers(earlier, x));
                }
            }
            i += 1;
        }
        proof {
            assert(found.take(i as int) =~= found);
            texts(words@).unique_seq_to_set();
            vstd::seq_lib::seq_to_set_is_finite(texts(words@));
        }
        let covered = all_marked(&used);
        proof {
            if covered {
                assert forall|x: int| 0 <= x < 20 implies covers(found, x) by {
                    assert(used[x]);
                }
            }
            if forall|x: int| 0 <= x < 20 ==> covers(found, x) {
                assert forall|x: int| 0 <= x < 20 implies used[x] by {
                    assert(covers(found, x));
                }
            }
            assert(texts(words@).len() == words@.len());
        }
        words.len() >= 5 && covered
    }

    /// Where the search stands after a run that reported `word`.
    pub fn progress(&self, word: Option<FragmentPath>) -> (r: Progress)
        ensures
            r == if self@.finished {
                Progress::Finished { solved: solved(self.puzzle(), self@) }
            } else {
                match word {
                    Some(path) => Progress::Found(path),
                    None => Progress::Searching,
                }
            },
    {
        if self.is_finished {
            Progress::Finished { solved: self.is_solved() }
        } else {
            match word {
                Some(path) => Progress::Found(path),
                None => Progress::Searching,
            }
        }
    }

    /// The paths found so far without those that spell a word which an
    /// earlier one spells, in the order found.
    pub fn first_spellings(&self) -> (r: Vec<FragmentPath>)
        ensures
            contents(r@) == first_spellings(self.puzzle(), self@.found),
    {
        let ghost puzzle = self.puzzle();
        let ghost found = self@.found;
        let mut words: Vec<str32> = Vec::new();
        let mut r: Vec<FragmentPath> = Vec::new();
        let mut i: usize = 0;
        assert(found.take(0) =~= Seq::<Seq<int>>::empty());
        assert(contents(r@) =~= first_spellings(puzzle, found.take(0)));
        while i < self.solution.len()
            invariant
                i <= found.len() == self.solution@.len(),
                found == contents(self.solution@),
                puzzle == puzzle_bytes(self.fragments),
                fitting(words@),
                contents(r@) == first_spellings(puzzle, found.take(i as int)),
                forall|word: Seq<u8>|
                    texts(words@).contains(word) <==> spelled_among(puzzle, found, i as int, word),
            decreases found.len() - i,
        {
            let path = self.solution[i];
            let word = path.word(&self.fragments);
            let ghost shorter = found.take(i as int);
            let ghost longer = found.take(i + 1);
            let ghost text = word_bytes(word);
            let ghost before = texts(words@);
            proof {
                assert(longer.drop_last() =~= shorter);
                assert(longer.last() == path@);
                if spelled_among(puzzle, longer, i as int, text) {
                    let j = choose|j: int|
                        0 <= j < i && j < longer.len() && spelled(puzzle, #[trigger] longer[j])
                            == text;
                    assert(found[j] == longer[j]);
                }
                if spelled_among(puzzle, found, i as int, text) {
                    let j = choose|j: int|
                        0 <= j < i && j < found.len() && spelled(puzzle, #[trigger] found[j])
                            == text;
                    assert(longer[j] == found[j]);
                }
            }
            if !holds_word(&words, &word) {
                let ghost kept = contents(r@);
                words.push(word);
                r.push(path);
                assert(texts(words@) =~= before.push(text));
                assert(contents(r@) =~= kept.push(path@));
            }
            proof {
                assert forall|w: Seq<u8>|
                    texts(words@).contains(w) <==> spelled_among(puzzle, found, i + 1, w) by {
                    if texts(words@).contains(w) {
                        let k = choose|k: int|
                            0 <= k < texts(words@).len() && texts(words@)[k] == w;
                        if k < before.len() {
                            assert(before[k] == w);
                            assert(before.contains(w));
                            let j = choose|j: int|
                                0 <= j < i && j < found.len() && spelled(
                                    puzzle,
                                    #[trigger] found[j],
                                ) == w;
                            assert(spelled_among(puzzle, found, i + 1, w));
                        } else {
                            assert(spelled(puzzle, found[i as int]) == w);
                        }
                    }
                    if spelled_among(puzzle, found, i + 1, w) {
                        let j = choose|j: int|
                            0 <= j < i + 1 && j < found.len() && spelled(
                                puzzle,
                                #[trigger] found[j],
                            ) == w;
                        if j < i {
                            assert(spelled_among(puzzle, found, i as int, w));
                            assert(before.contains(w));
                            let k = choose|k: int| 0 <= k < before.len() && before[k] == w;
                            assert(texts(words@)[k] == w);
                        } else {
                            assert(w == text);
                            if before.contains(text) {
                                let k = choose|k: int| 0 <= k < before.len() && before[k] == text;
                                assert(texts(words@)[k] == w);
                            } else {
                                assert(texts(words@)[before.len() as int] == w);
                            }
                        }
                    }
                }
            }
            i += 1;
        }
        assert(found.take(i as int) =~= found);
        r
    }

    /// The candidate word that `path` spells on the puzzle.
    pub fn word(&self, path: &FragmentPath) -> (word: str32)
        ensures
            word_bytes(word) == spelled(self.puzzle(), path@),
    {
        path.word(&self.fragments)
    }

    /// The paths found so far, in the order found.
    pub fn solution_paths(&self) -> (r: Vec<FragmentPath>)
        ensures
            contents(r@) == self@.found,
    {
        let mut r: Vec<FragmentPath> = Vec::new();
        let mut i: usize = 0;
        while i < self.solution.len()
            invariant
                i <= self.solution@.len(),
                r@ == self.solution@.take(i as int),
            decreases self.solution@.len() - i,
        {
            r.push(self.solution[i]);
            assert(r@ =~= self.solution@.take(i + 1));
            i += 1;
        }
        assert(r@ =~= self.solution@);
        r
    }

    /// The words found so far, in the order found.
    pub fn solution(&self) -> (r: Vec<str32>)
        ensures
            r@.len() == self@.found.len(),
            forall|i: int|
                0 <= i < r@.len() ==> word_bytes(#[trigger] r@[i]) == spelled(
                    self.puzzle(),
                    self@.found[i],
                ),
    {
        let mut r: Vec<str32> = Vec::new();
        let mut i: usize = 0;
        while i < self.solution.len()
            invariant
                i <= self.solution@.len(),
                r@.len() == i,
                forall|k: int|
                    0 <= k < i ==> word_bytes(#[trigger] r@[k]) == spelled(
                        self.puzzle(),
                        self@.found[k],
                    ),
            decreases self.solution@.len() - i,
        {
            let word = self.solution[i].word(&self.fragments);
            r.push(word);
            i += 1;
        }
        r
    }
}

impl Clone for Solver {
    /// A solver in the same state, on the same dictionary.
    fn clone(&self) -> (r: Solver)
        ensures
            r@ == self@,
            r.lexicon() == self.lexicon(),
            r.puzzle() == self.puzzle(),
    {
        proof {
            use_type_invariant(self);
        }
        let solution = self.solution_paths();
        Solver {
            dictionary: share(&self.dictionary),
            fragments: self.fragments,
            path: self.path,
            solution,
            is_finished: self.is_finished,
        }
    }
}

} // verus!
