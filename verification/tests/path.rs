use quartiles_solver::path::{FragmentPath, FragmentPathError};

/// The path with the given slots, from the left.
fn slots(slots: [Option<usize>; 4]) -> FragmentPath {
    FragmentPath::from_slots(slots).unwrap()
}

/// Ensure that appending a fragment index to a fragment path works for all
/// interesting cases.
#[test]
fn test_append()
{
    let path = FragmentPath::default();
    assert_eq!(path, slots([None, None, None, None]));
    assert!(path.is_empty());
    assert!(!path.is_full());
    assert!(path.is_disjoint());
    let path = path.append().unwrap();
    assert_eq!(path, slots([Some(0), None, None, None]));
    assert!(!path.is_empty());
    assert!(!path.is_full());
    assert!(path.is_disjoint());
    let path = path.append().unwrap();
    assert_eq!(path, slots([Some(0), Some(1), None, None]));
    assert!(!path.is_empty());
    assert!(!path.is_full());
    assert!(path.is_disjoint());
    let path = path.append().unwrap();
    assert_eq!(path, slots([Some(0), Some(1), Some(2), None]));
    assert!(!path.is_empty());
    assert!(!path.is_full());
    assert!(path.is_disjoint());
    let path = path.append().unwrap();
    assert_eq!(path, slots([Some(0), Some(1), Some(2), Some(3)]));
    assert!(!path.is_empty());
    assert!(path.is_full());
    assert!(path.is_disjoint());
    assert_eq!(path.append(), Err(FragmentPathError::Overflow));
}

/// Ensure that popping a fragment index from a fragment path works for all
/// interesting cases.
#[test]
fn test_increment()
{
    let mut path = FragmentPath::default();
    assert_eq!(
        path.increment(),
        Err(FragmentPathError::CannotIncrementEmpty)
    );

    path = path.append().unwrap();
    for i in 0..19
    {
        assert_eq!(path, slots([Some(i), None, None, None]));
        assert!(!path.is_empty());
        assert!(!path.is_full());
        assert!(path.is_disjoint());
        path = path.increment().unwrap();
    }
    assert_eq!(path, slots([Some(19), None, None, None]));
    assert!(!path.is_empty());
    assert!(!path.is_full());
    assert!(path.is_disjoint());
    assert_eq!(path.increment(), Err(FragmentPathError::IndexOverflow));

    path = path.append().unwrap();
    for i in 0..18
    {
        assert_eq!(path, slots([Some(19), Some(i), None, None]));
        assert!(!path.is_empty());
        assert!(!path.is_full());
        assert!(path.is_disjoint());
        path = path.increment().unwrap();
    }
    assert_eq!(path, slots([Some(19), Some(18), None, None]));
    assert!(!path.is_empty());
    assert!(!path.is_full());
    assert!(path.is_disjoint());
    assert_eq!(path.increment(), Err(FragmentPathError::IndexOverflow));

    path = path.append().unwrap();
    for i in 0..17
    {
        assert_eq!(path, slots([Some(19), Some(18), Some(i), None]));
        assert!(!path.is_empty());
        assert!(!path.is_full());
        assert!(path.is_disjoint());
        path = path.increment().unwrap();
    }
    assert_eq!(path, slots([Some(19), Some(18), Some(17), None]));
    assert!(!path.is_empty());
    assert!(!path.is_full());
    assert!(path.is_disjoint());
    assert_eq!(path.increment(), Err(FragmentPathError::IndexOverflow));

    path = path.append().unwrap();
    for i in 0..16
    {
        assert_eq!(
            path,
            slots([Some(19), Some(18), Some(17), Some(i)])
        );
        assert!(!path.is_empty());
        assert!(path.is_full());
        assert!(path.is_disjoint());
        path = path.increment().unwrap();
    }
    assert_eq!(
        path,
        slots([Some(19), Some(18), Some(17), Some(16)])
    );
    assert!(!path.is_empty());
    assert!(path.is_full());
    assert!(path.is_disjoint());
    assert_eq!(path.increment(), Err(FragmentPathError::IndexOverflow));

    path = slots([Some(1), Some(2), Some(3), None]);
    path = path.append().unwrap();
    assert_eq!(path, slots([Some(1), Some(2), Some(3), Some(0)]));
    assert!(!path.is_empty());
    assert!(path.is_full());
    assert!(path.is_disjoint());
    assert_eq!(
        path.increment().unwrap(),
        slots([Some(1), Some(2), Some(3), Some(4)])
    );

    path = slots([Some(1), Some(19), Some(3), None]);
    path = path.append().unwrap();
    assert_eq!(path, slots([Some(1), Some(19), Some(3), Some(0)]));
    assert!(!path.is_empty());
    assert!(path.is_full());
    assert!(path.is_disjoint());
    path = path.increment().unwrap();
    assert_eq!(
        path,
        slots([Some(1), Some(19), Some(3), Some(2)])
    );
    path = path.increment().unwrap();
    for i in 4..18
    {
        assert_eq!(
            path,
            slots([Some(1), Some(19), Some(3), Some(i)])
        );
        assert!(!path.is_empty());
        assert!(path.is_full());
        assert!(path.is_disjoint());
        path = path.increment().unwrap();
    }
    assert_eq!(
        path,
        slots([Some(1), Some(19), Some(3), Some(18)])
    );
    assert!(!path.is_empty());
    assert!(path.is_full());
    assert!(path.is_disjoint());
    assert_eq!(path.increment(), Err(FragmentPathError::IndexOverflow));
}

/// Ensure that popping a fragment index from a fragment path works for all
/// interesting cases.
#[test]
fn test_pop()
{
    let path = FragmentPath::default();
    assert_eq!(
        path.pop(),
        Err(FragmentPathError::Underflow)
    );

    let path = path.append().unwrap();
    let path = path.append().unwrap();
    let path = path.append().unwrap();
    let path = path.append().unwrap();
    assert_eq!(path, slots([Some(0), Some(1), Some(2), Some(3)]));
    assert!(!path.is_empty());
    assert!(path.is_full());
    assert!(path.is_disjoint());
    let path = path.pop().unwrap();
    assert_eq!(path, slots([Some(0), Some(1), Some(2), None]));
    assert!(!path.is_empty());
    assert!(!path.is_full());
    assert!(path.is_disjoint());
    let path = path.pop().unwrap();
    assert_eq!(path, slots([Some(0), Some(1), None, None]));
    assert!(!path.is_empty());
    assert!(!path.is_full());
    assert!(path.is_disjoint());
    let path = path.pop().unwrap();
    assert_eq!(path, slots([Some(0), None, None, None]));
    assert!(!path.is_empty());
    assert!(!path.is_full());
    assert!(path.is_disjoint());
    let path = path.pop().unwrap();
    assert_eq!(path, slots([None, None, None, None]));
    assert!(path.is_empty());
    assert!(!path.is_full());
    assert!(path.is_disjoint());
}

/// Ensure that popping and incrementing a fragment path works for all
/// interesting cases.
#[test]
fn test_pop_and_increment()
{
    let path = FragmentPath::default();
    assert_eq!(
        path.pop_and_increment(),
        Err(FragmentPathError::Underflow)
    );

    let path = path.append().unwrap();
    let path = path.append().unwrap();
    let path = path.append().unwrap();
    let path = path.append().unwrap();
    assert_eq!(path, slots([Some(0), Some(1), Some(2), Some(3)]));
    assert!(!path.is_empty());
    assert!(path.is_full());
    assert!(path.is_disjoint());
    let path = path.pop_and_increment().unwrap();
    assert_eq!(path, slots([Some(0), Some(1), Some(3), None]));
    assert!(!path.is_empty());
    assert!(!path.is_full());
    assert!(path.is_disjoint());
    let path = path.pop_and_increment().unwrap();
    assert_eq!(path, slots([Some(0), Some(2), None, None]));
    assert!(!path.is_empty());
    assert!(!path.is_full());
    assert!(path.is_disjoint());
    let path = path.pop_and_increment().unwrap();
    assert_eq!(path, slots([Some(1), None, None, None]));
    assert!(!path.is_empty());
    assert!(!path.is_full());
    assert!(path.is_disjoint());
    assert_eq!(
        path.pop_and_increment(),
        Err(FragmentPathError::CannotIncrementEmpty)
    );

    let path = slots([Some(19), Some(18), Some(17), Some(16)]);
    assert_eq!(
        path.pop_and_increment(),
        Err(FragmentPathError::CannotIncrementEmpty)
    );

    let path = slots([Some(18), Some(17), Some(16), Some(15)]);
    let path = path.pop_and_increment().unwrap();
    assert_eq!(path, slots([Some(18), Some(17), Some(19), None]));
    let path = path.pop_and_increment().unwrap();
    assert_eq!(path, slots([Some(18), Some(19), None, None]));
    let path = path.pop_and_increment().unwrap();
    assert_eq!(path, slots([Some(19), None, None, None]));
    assert_eq!(
        path.pop_and_increment(),
        Err(FragmentPathError::CannotIncrementEmpty)
    );
}

/// Ensure that the disjointedness of fragment paths is correctly
/// determined. Be exhaustive, since it's cheap and the space is easy to
/// enumerate.
#[test]
fn test_is_disjoint()
{
    let path = FragmentPath::default();
    assert!(path.is_disjoint());

    for i in 0..20
    {
        let path = slots([Some(i), None, None, None]);
        assert!(path.is_disjoint());
    }

    for i in 0..20
    {
        for j in 0..20
        {
            let path = slots([Some(i), Some(j), None, None]);
            assert_eq!(path.is_disjoint(), i != j, "{}, {}", i, j);
        }
    }

    for i in 0..20
    {
        for j in 0..20
        {
            for k in 0..20
            {
                let path = slots([Some(i), Some(j), Some(k), None]);
                assert_eq!(
                    path.is_disjoint(),
                    i != j && i != k && j != k,
                    "{}, {}, {}", i, j, k
                );
            }
        }
    }

    for i in 0..20
    {
        for j in 0..20
        {
            for k in 0..20
            {
                for l in 0..20
                {
                    let path =
                        slots([Some(i), Some(j), Some(k), Some(l)]);
                    assert_eq!(
                        path.is_disjoint(),
                        i != j && i != k && i != l
                            && j != k && j != l
                            && k != l,
                        "{}, {}, {}, {}", i, j, k, l
                    );
                }
            }
        }
    }
}

/// Slots that leave a gap, or hold a position off the grid, make no path.
#[test]
fn test_from_slots() {
    assert!(FragmentPath::from_slots([None, Some(1), None, None]).is_none());
    assert!(FragmentPath::from_slots([Some(1), None, Some(2), None]).is_none());
    assert!(FragmentPath::from_slots([Some(1), Some(2), None, Some(3)]).is_none());
    assert!(FragmentPath::from_slots([Some(20), None, None, None]).is_none());
    assert!(FragmentPath::from_slots([Some(0), Some(usize::MAX), None, None]).is_none());
    assert!(FragmentPath::from_slots([Some(19), Some(19), Some(19), Some(19)]).is_some());
    assert_eq!(FragmentPath::from_slots([None, None, None, None]), Some(FragmentPath::default()));
}

/// The slots of a path come out as they went in.
#[test]
fn test_iter_and_get() {
    let path = slots([Some(7), Some(3), None, None]);
    assert_eq!(path.iter(), vec![Some(7), Some(3), None, None]);
    assert_eq!(path.len(), 2);
    assert_eq!(path.get(0), Some(7));
    assert_eq!(path.get(1), Some(3));
    assert_eq!(path.get(2), None);
    assert_eq!(path.get(4), None);
    assert_eq!(FragmentPath::default().iter(), vec![None, None, None, None]);
    assert_eq!(FragmentPath::default().len(), 0);
}

/// Each error says what went wrong.
#[test]
fn test_error_message() {
    assert_eq!(FragmentPathError::Overflow.message(), "fragment path is already full");
    assert_eq!(FragmentPathError::Underflow.message(), "fragment path is already empty");
    assert_eq!(FragmentPathError::IndexOverflow.message(), "fragment index is already at maximum");
    assert_eq!(FragmentPathError::CannotIncrementEmpty.message(), "fragment path is empty");
}

/// Appending skips the positions that the path holds.
#[test]
fn test_append_skips_used() {
    assert_eq!(slots([Some(0), Some(2), Some(1), None]).append().unwrap(), slots([Some(0), Some(2), Some(1), Some(3)]));
    assert_eq!(slots([Some(1), None, None, None]).append().unwrap(), slots([Some(1), Some(0), None, None]));
    assert_eq!(slots([Some(5), Some(5), None, None]).append().unwrap(), slots([Some(5), Some(5), Some(0), None]));
}

/// The last position cannot rise to or past the largest position that the
/// others leave free: nineteen, less the larger positions that they hold.
#[test]
fn test_increment_ceiling() {
    let full = |last: usize| slots([Some(19), Some(17), Some(18), Some(last)]);
    assert_eq!(full(15).increment().unwrap(), full(16));
    assert_eq!(full(16).increment(), Err(FragmentPathError::IndexOverflow));
    let gap = |last: usize| slots([Some(19), Some(17), Some(0), Some(last)]);
    assert_eq!(gap(16).increment().unwrap(), gap(18));
    assert_eq!(gap(18).increment(), Err(FragmentPathError::IndexOverflow));
    assert_eq!(slots([Some(19), Some(19), None, None]).increment(), Err(FragmentPathError::IndexOverflow));
    assert_eq!(slots([Some(3), Some(19), None, None]).increment(), Err(FragmentPathError::IndexOverflow));
}

/// Backtracking steps over every level that is used up.
#[test]
fn test_pop_and_increment_levels() {
    assert_eq!(slots([Some(0), Some(19), Some(18), Some(17)]).pop_and_increment().unwrap(), slots([Some(1), None, None, None]));
    assert_eq!(slots([Some(0), Some(18), Some(19), Some(17)]).pop_and_increment().unwrap(), slots([Some(0), Some(19), None, None]));
    assert_eq!(slots([Some(4), None, None, None]).pop_and_increment(), Err(FragmentPathError::CannotIncrementEmpty));
}

/// Walking from the empty path by appending where that is possible, else
/// incrementing, else backtracking, visits each disjoint sequence of one to
/// four positions once, in rising order, and nothing else.
#[test]
fn test_enumeration() {
    let mut path = FragmentPath::default();
    let mut counts = [0usize; 5];
    let mut previous: Option<Vec<Option<usize>>> = None;
    loop {
        assert!(path.is_disjoint());
        counts[path.len()] += 1;
        let key = path.iter();
        if let Some(before) = &previous {
            let rank = |slots: &Vec<Option<usize>>| {
                slots.iter().fold(0usize, |sum, slot| sum * 21 + slot.map_or(0, |index| index + 1))
            };
            assert!(rank(before) < rank(&key));
        }
        previous = Some(key);
        path = match path.append() {
            Ok(next) => next,
            Err(_) => match path.increment() {
                Ok(next) => next,
                Err(_) => match path.pop_and_increment() {
                    Ok(next) => next,
                    Err(error) => {
                        assert_eq!(error, FragmentPathError::CannotIncrementEmpty);
                        break;
                    }
                },
            },
        };
    }
    assert_eq!(counts, [1, 20, 20 * 19, 20 * 19 * 18, 20 * 19 * 18 * 17]);
    assert_eq!(path, slots([Some(19), Some(18), Some(17), Some(16)]));
}
