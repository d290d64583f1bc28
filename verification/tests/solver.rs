use std::collections::HashSet;
use std::rc::Rc;
use std::time::Duration;

use fixedstr::{str32, str8};
use quartiles_solver::dictionary::Dictionary;
use quartiles_solver::path::FragmentPath;
use quartiles_solver::solver::{Progress, Solver};

/// The words that the two canonical puzzles are expected to yield.
const WORDS: [&str; 51] = [
    "cross", "crosswords", "fully", "fuss", "fuzz", "is", "mat", "nihilistic", "rail", "rally",
    "rare", "rash", "razz", "razzmatazz", "recross", "ref", "refresh", "refreshment", "rewords",
    "this", "thrash", "thresh", "tic", "truss", "truth", "truthfully", "words", "wore", "bail",
    "bale", "bamboo", "bamboozle", "bate", "chi", "chinchilla", "courteous", "delectable",
    "discourteous", "diskette", "lamb", "late", "leper", "market", "per", "peril", "perilous",
    "super", "supermarket", "tab", "table", "taboo",
];

/// A dictionary of the words that the canonical puzzles are expected to
/// yield.
fn english() -> Dictionary {
    let mut dictionary = Dictionary::new();
    dictionary.populate(&WORDS);
    dictionary
}

/// The fragments of the first canonical puzzle.
fn fragments() -> [str8; 20] {
    [
        "azz", "th", "ss", "tru", "ref", "fu", "ra", "nih", "cro", "mat", "wo", "sh", "re", "rds",
        "tic", "il", "lly", "zz", "is", "ment",
    ]
    .map(str8::from)
}

/// The path with the given slots, from the left.
fn slots(slots: [Option<usize>; 4]) -> FragmentPath {
    FragmentPath::from_slots(slots).unwrap()
}

/// Ensure the correctness of the solution to a canonical puzzle.
#[test]
fn test_solver()
{
    let dictionary = Rc::new(english());
    let cases = [
        (
            [
                str8::from("azz"),
                str8::from("th"),
                str8::from("ss"),
                str8::from("tru"),
                str8::from("ref"),
                str8::from("fu"),
                str8::from("ra"),
                str8::from("nih"),
                str8::from("cro"),
                str8::from("mat"),
                str8::from("wo"),
                str8::from("sh"),
                str8::from("re"),
                str8::from("rds"),
                str8::from("tic"),
                str8::from("il"),
                str8::from("lly"),
                str8::from("zz"),
                str8::from("is"),
                str8::from("ment")
            ],
            vec![
                str32::from("cross"),
                str32::from("crosswords"),
                str32::from("fully"),
                str32::from("fuss"),
                str32::from("fuzz"),
                str32::from("is"),
                str32::from("mat"),
                str32::from("nihilistic"),
                str32::from("rail"),
                str32::from("rally"),
                str32::from("rare"),
                str32::from("rash"),
                str32::from("razz"),
                str32::from("razzmatazz"),
                str32::from("recross"),
                str32::from("ref"),
                str32::from("refresh"),
                str32::from("refreshment"),
                str32::from("rewords"),
                str32::from("this"),
                str32::from("thrash"),
                str32::from("thresh"),
                str32::from("tic"),
                str32::from("truss"),
                str32::from("truth"),
                str32::from("truthfully"),
                str32::from("words"),
                str32::from("wore")
            ]
        ),
        (
            [
                str8::from("tab"),
                str8::from("nch"),
                str8::from("ec"),
                str8::from("dis"),
                str8::from("oo"),
                str8::from("per"),
                str8::from("mb"),
                str8::from("ous"),
                str8::from("cour"),
                str8::from("le"),
                str8::from("mar"),
                str8::from("te"),
                str8::from("zle"),
                str8::from("su"),
                str8::from("la"),
                str8::from("ba"),
                str8::from("ket"),
                str8::from("del"),
                str8::from("il"),
                str8::from("chi")
            ],
            vec![
                str32::from("bail"),
                str32::from("bale"),
                str32::from("bamboo"),
                str32::from("bamboozle"),
                str32::from("bate"),
                str32::from("chi"),
                str32::from("chinchilla"),
                str32::from("courteous"),
                str32::from("delectable"),
                str32::from("discourteous"),
                str32::from("diskette"),
                str32::from("lamb"),
                str32::from("late"),
                str32::from("leper"),
                str32::from("market"),
                str32::from("per"),
                str32::from("peril"),
                str32::from("perilous"),
                str32::from("super"),
                str32::from("supermarket"),
                str32::from("tab"),
                str32::from("table"),
                str32::from("taboo")
            ]
        )
    ];
    for (fragments, expected) in cases.iter()
    {
        let solver = Solver::new(Rc::clone(&dictionary), *fragments);
        let solver = solver.solve_fully();
        assert!(solver.is_finished());
        assert!(solver.is_solved());
        let mut solution = solver.solution();
        solution.sort();
        for word in solution.iter()
        {
            assert!(
                dictionary.contains(word.as_str()),
                "not in dictionary: {}",
                word
            );
        }
        let expected = HashSet::<str32>::from_iter(expected.iter().cloned());
        let solution = HashSet::<str32>::from_iter(solution.iter().cloned());
        // The solution may contain additional words, so we only check that
        // the expected words are present. The test dictionary should be
        // capable enough to find the expected solution.
        assert!(expected.is_subset(&solution));
    }
}


/// A solver that is given no time still takes a step each time, and so
/// comes to an end.
#[test]
fn test_solve_without_time() {
    let mut dictionary = Dictionary::new();
    dictionary.populate(&["azz", "azzth"]);
    let mut solver = Solver::new(Rc::new(dictionary), fragments());
    let mut runs = 0;
    let mut reported = Vec::new();
    while !solver.is_finished() {
        let (next, word) = solver.solve(Duration::ZERO);
        solver = next;
        if let Some(path) = word {
            reported.push(path);
        }
        runs += 1;
        assert!(runs < 200000);
    }
    assert_eq!(reported, vec![slots([Some(0), None, None, None]), slots([Some(0), Some(1), None, None])]);
    assert_eq!(solver.solution_paths(), reported);
    assert_eq!(solver.solution(), vec![str32::from("azz"), str32::from("azzth")]);
    assert!(!solver.is_solved());
}

/// Each run reports the one word that it found, in the order of the
/// search.
#[test]
fn test_solve_reports_each_word() {
    let mut dictionary = Dictionary::new();
    dictionary.populate(&["ssth", "thss", "th"]);
    let solver = Solver::new(Rc::new(dictionary), fragments());
    let (solver, first) = solver.solve(Duration::from_secs(3600));
    assert_eq!(first, Some(slots([Some(1), None, None, None])));
    assert!(!solver.is_finished());
    assert_eq!(solver.progress(first), Progress::Found(slots([Some(1), None, None, None])));
    let (solver, second) = solver.solve(Duration::from_secs(3600));
    assert_eq!(second, Some(slots([Some(1), Some(2), None, None])));
    let (solver, third) = solver.solve(Duration::from_secs(3600));
    assert_eq!(third, Some(slots([Some(2), Some(1), None, None])));
    assert_eq!(solver.solution().len(), 3);
    let (solver, last) = solver.solve(Duration::from_secs(3600));
    assert_eq!(last, None);
    assert!(solver.is_finished());
    assert_eq!(solver.progress(last), Progress::Finished { solved: false });
    let (solver, after) = solver.solve(Duration::from_secs(3600));
    assert_eq!(after, None);
    assert!(solver.is_finished());
    assert_eq!(solver.solution().len(), 3);
}

/// With no word in the dictionary the search ends at once, unsolved.
#[test]
fn test_solve_empty_dictionary() {
    let solver = Solver::new(Rc::new(Dictionary::new()), fragments());
    assert!(!solver.is_finished());
    assert!(!solver.is_solved());
    let (solver, word) = solver.solve(Duration::ZERO);
    assert_eq!(word, None);
    assert!(solver.is_finished());
    assert!(!solver.is_solved());
    assert!(solver.solution().is_empty());
    let solver = Solver::new(Rc::new(Dictionary::new()), fragments()).solve_fully();
    assert!(solver.is_finished());
}

/// A puzzle is solved only once the search is over.
#[test]
fn test_is_solved_needs_finished() {
    let solver = Solver::new(Rc::new(english()), fragments());
    let (solver, word) = solver.solve(Duration::from_secs(3600));
    assert!(word.is_some());
    assert!(!solver.is_finished());
    assert!(!solver.is_solved());
    assert_eq!(solver.progress(None), Progress::Searching);
    let solver = solver.solve_fully();
    assert!(solver.is_solved());
    assert_eq!(solver.progress(None), Progress::Finished { solved: true });
}

/// Five full words that leave a cell out do not solve the puzzle, nor do
/// four that cover the grid with the help of a shorter word.
#[test]
fn test_is_solved_needs_cover_and_five() {
    let mut dictionary = Dictionary::new();
    dictionary.populate(&[
        "crosswords", "truthfully", "razzmatazz", "nihilistic", "refreshtic",
    ]);
    let solver = Solver::new(Rc::new(dictionary), fragments()).solve_fully();
    assert_eq!(solver.solution().len(), 5);
    assert!(!solver.is_solved());

    let mut dictionary = Dictionary::new();
    dictionary.populate(&[
        "crosswords", "truthfully", "razzmatazz", "nihilistic", "refreshment", "refresh",
    ]);
    let solver = Solver::new(Rc::new(dictionary), fragments()).solve_fully();
    assert_eq!(solver.solution().len(), 6);
    assert!(solver.is_solved());

    let mut dictionary = Dictionary::new();
    dictionary.populate(&["crosswords", "truthfully", "razzmatazz", "nihilistic", "refreshment"]);
    let mut cells = fragments();
    cells[19] = str8::from("tic");
    cells[14] = str8::from("ment");
    let solver = Solver::new(Rc::new(dictionary), cells).solve_fully();
    assert!(solver.is_solved());
}

/// The same word spelled by two paths is found twice, and counted once.
#[test]
fn test_first_spellings() {
    let mut cells = fragments();
    cells[5] = str8::from("th");
    let mut dictionary = Dictionary::new();
    dictionary.populate(&["th", "thss"]);
    let solver = Solver::new(Rc::new(dictionary), cells).solve_fully();
    assert_eq!(
        solver.solution_paths(),
        vec![
            slots([Some(1), None, None, None]),
            slots([Some(1), Some(2), None, None]),
            slots([Some(5), None, None, None]),
            slots([Some(5), Some(2), None, None]),
        ]
    );
    assert_eq!(
        solver.first_spellings(),
        vec![slots([Some(1), None, None, None]), slots([Some(1), Some(2), None, None])]
    );
}

/// A word is spelled by the fragments of its path, in the order of the
/// path.
#[test]
fn test_word() {
    let solver = Solver::new(Rc::new(Dictionary::new()), fragments());
    assert_eq!(solver.word(&FragmentPath::default()), str32::from(""));
    assert_eq!(solver.word(&slots([Some(8), Some(2), Some(10), Some(13)])), str32::from("crosswords"));
    assert_eq!(solver.word(&slots([Some(13), Some(10), None, None])), str32::from("rdswo"));
    let path = slots([Some(19), Some(19), Some(19), Some(19)]);
    assert_eq!(path.word(&fragments()), str32::from("mentmentmentment"));
    let long = [str8::from("abcdefg"); 20];
    assert_eq!(path.word(&long).len(), 28);
}

/// A copy of a solver goes on from the same state.
#[test]
fn test_clone() {
    let solver = Solver::new(Rc::new(english()), fragments());
    let (solver, _) = solver.solve(Duration::from_secs(3600));
    let copy = solver.clone();
    assert_eq!(copy.solution_paths(), solver.solution_paths());
    let (solver, a) = solver.solve(Duration::from_secs(3600));
    let (copy, b) = copy.solve(Duration::from_secs(3600));
    assert_eq!(a, b);
    assert_eq!(copy.solution(), solver.solution());
}

/// The fragments of a puzzle of one letter to the cell, `a` to `t`.
fn letters() -> [str8; 20] {
    [
        "a", "b", "c", "d", "e", "f", "g", "h", "i", "j", "k", "l", "m", "n", "o", "p", "q", "r",
        "s", "t",
    ]
    .map(str8::from)
}

/// Full words that cover the grid but share a cell do not solve the
/// puzzle; five that divide the grid between them do.
#[test]
fn test_is_solved_needs_partition() {
    let mut dictionary = Dictionary::new();
    dictionary.populate(&["abcd", "efgh", "ijkl", "mnop", "qrsa", "tabc"]);
    let solver = Solver::new(Rc::new(dictionary), letters()).solve_fully();
    assert!(solver.is_finished());
    assert_eq!(solver.solution().len(), 6);
    assert!(solver.solution_paths().iter().all(|path| path.is_full()));
    assert!(!solver.is_solved());
    assert_eq!(solver.progress(None), Progress::Finished { solved: false });

    let mut dictionary = Dictionary::new();
    dictionary.populate(&["abcd", "efgh", "ijkl", "mnop", "qrst"]);
    let solver = Solver::new(Rc::new(dictionary), letters()).solve_fully();
    assert_eq!(solver.solution().len(), 5);
    assert!(solver.is_solved());

    let mut dictionary = Dictionary::new();
    dictionary.populate(&["abcd", "efgh", "ijkl", "mnop", "qrst", "tsrq"]);
    let solver = Solver::new(Rc::new(dictionary), letters()).solve_fully();
    assert_eq!(solver.solution().len(), 6);
    assert!(!solver.is_solved());

    let mut dictionary = Dictionary::new();
    dictionary.populate(&["abcd", "efgh", "ijkl", "mnop", "qrst", "qr", "a"]);
    let solver = Solver::new(Rc::new(dictionary), letters()).solve_fully();
    assert_eq!(solver.solution().len(), 7);
    assert!(solver.is_solved());
}

/// With no time at all, each run is one step: the first moves the cursor
/// off the empty path, the second finds the word of the first cell.
#[test]
fn test_solve_zero_budget_is_one_step() {
    let mut dictionary = Dictionary::new();
    dictionary.populate(&["a"]);
    let solver = Solver::new(Rc::new(dictionary), letters());
    let (solver, first) = solver.solve(Duration::ZERO);
    assert_eq!(first, None);
    assert!(solver.solution().is_empty());
    assert!(!solver.is_finished());
    let (solver, second) = solver.solve(Duration::ZERO);
    assert_eq!(second.map(|path| path.iter()), Some(vec![Some(0), None, None, None]));
    assert_eq!(solver.solution(), vec![str32::from("a")]);
    assert!(!solver.is_finished());
}

/// A step looks at one path: it finds the word that the cursor spells, and
/// moves the cursor down, sideways or back.
#[test]
fn test_step() {
    let mut dictionary = Dictionary::new();
    dictionary.populate(&["b", "bd"]);
    let solver = Solver::new(Rc::new(dictionary), letters());
    let (solver, word) = solver.step();
    assert_eq!(word, None);
    let (solver, word) = solver.step();
    assert_eq!(word, None);
    assert!(solver.solution().is_empty());
    let (solver, word) = solver.step();
    assert_eq!(word, Some(slots([Some(1), None, None, None])));
    let (solver, word) = solver.step();
    assert_eq!(word, None);
    let (solver, word) = solver.step();
    assert_eq!(word, None);
    let (solver, word) = solver.step();
    assert_eq!(word, Some(slots([Some(1), Some(3), None, None])));
    assert_eq!(solver.solution(), vec![str32::from("b"), str32::from("bd")]);
    let mut solver = solver;
    let mut steps = 0;
    while !solver.is_finished() {
        let (next, word) = solver.step();
        assert_eq!(word, None);
        solver = next;
        steps += 1;
        assert!(steps < 200);
    }
    let (solver, word) = solver.step();
    assert_eq!(word, None);
    assert!(solver.is_finished());
    assert_eq!(solver.solution().len(), 2);
}

/// A run ends with a word, with the end of the search, or with the end of
/// its time, and goes on otherwise.
#[test]
fn test_run_ends() {
    assert!(!Solver::run_ends(false, false, false));
    assert!(Solver::run_ends(true, false, false));
    assert!(Solver::run_ends(false, true, false));
    assert!(Solver::run_ends(false, false, true));
    assert!(Solver::run_ends(true, true, true));
}

/// A fragment whose length byte says more than a fragment has room for
/// adds nothing to a word.
#[test]
fn test_word_without_overlong_fragment() {
    let mut cells = letters();
    cells[1] = str8::from("abc").substr(0, 8);
    assert_eq!(cells[1].len(), 8);
    let mut dictionary = Dictionary::new();
    dictionary.populate(&["ac", "a"]);
    let solver = Solver::new(Rc::new(dictionary), cells);
    assert_eq!(solver.word(&slots([Some(0), Some(1), Some(2), None])), str32::from("ac"));
    assert_eq!(solver.word(&slots([Some(1), None, None, None])), str32::from(""));
    let solver = solver.solve_fully();
    assert!(solver.is_finished());
    assert!(solver.solution().contains(&str32::from("ac")));
}
