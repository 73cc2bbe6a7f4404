use sudoku::solver::{constrain, propagate, solve};
use sudoku::{Cell, Event, Grid};

const A: u32 = 123456789;

fn easy() -> Grid {
    Grid::new(&[
        A, A, 3, A, 2, A, 6, A, A, //
        9, A, A, 3, A, 5, A, A, 1, //
        A, A, 1, 8, A, 6, 4, A, A, //
        A, A, 8, 1, A, 2, 9, A, A, //
        7, A, A, A, A, A, A, A, 8, //
        A, A, 6, 7, A, 8, 2, A, A, //
        A, A, 2, 6, A, 9, 5, A, A, //
        8, A, A, 2, A, 3, A, A, 9, //
        A, A, 5, A, 1, A, 3, A, A,
    ])
}

fn easy_solution() -> Grid {
    Grid::new(&[
        4, 8, 3, 9, 2, 1, 6, 5, 7, //
        9, 6, 7, 3, 4, 5, 8, 2, 1, //
        2, 5, 1, 8, 7, 6, 4, 9, 3, //
        5, 4, 8, 1, 3, 2, 9, 7, 6, //
        7, 2, 9, 5, 6, 4, 1, 3, 8, //
        1, 3, 6, 7, 9, 8, 2, 4, 5, //
        3, 7, 2, 6, 8, 9, 5, 1, 4, //
        8, 1, 4, 2, 5, 3, 7, 6, 9, //
        6, 9, 5, 4, 1, 7, 3, 8, 2,
    ])
}

fn expert() -> Grid {
    Grid::new(&[
        4, A, A, A, A, A, 8, A, 5, //
        A, 3, A, A, A, A, A, A, A, //
        A, A, A, 7, A, A, A, A, A, //
        A, 2, A, A, A, A, A, 6, A, //
        A, A, A, A, 8, A, 4, A, A, //
        A, A, A, A, 1, A, A, A, A, //
        A, A, A, 6, A, 3, A, 7, A, //
        5, A, A, 2, A, A, A, A, A, //
        1, A, 4, A, A, A, A, A, A,
    ])
}

fn expert_solution() -> Grid {
    Grid::new(&[
        4, 1, 7, 3, 6, 9, 8, 2, 5, //
        6, 3, 2, 1, 5, 8, 9, 4, 7, //
        9, 5, 8, 7, 2, 4, 3, 1, 6, //
        8, 2, 5, 4, 3, 7, 1, 6, 9, //
        7, 9, 1, 5, 8, 6, 4, 3, 2, //
        3, 4, 6, 9, 1, 2, 7, 5, 8, //
        2, 8, 9, 6, 4, 3, 5, 7, 1, //
        5, 7, 3, 2, 9, 1, 6, 8, 4, //
        1, 6, 4, 8, 7, 5, 2, 9, 3,
    ])
}

fn invalid() -> Grid {
    let mut g = easy();
    // a second 3 in the first row
    *g.at_position(0, 0) = Cell::new(3);
    g
}

fn top_row_only() -> Grid {
    let mut values = [A; 81];
    for x in 0..9 {
        values[x] = x as u32 + 1;
    }
    Grid::new(&values)
}

fn cells(g: &Grid) -> Vec<u32> {
    let mut g = *g;
    (0..Grid::SIZE).map(|i| g.at_index(i).values()).collect()
}

/// Every row, column and box holds each of the digits 1 to 9 once.
fn consistent(g: &Grid) -> bool {
    let v = cells(g);
    let unit_ok = |unit: Vec<usize>| {
        let mut seen = [false; 10];
        for i in unit {
            let d = v[i] as usize;
            if d < 1 || d > 9 || seen[d] {
                return false;
            }
            seen[d] = true;
        }
        true
    };
    (0..9).all(|k| {
        let row = (0..9).map(|x| x + 9 * k).collect();
        let column = (0..9).map(|y| k + 9 * y).collect();
        let block = (0..9).map(|j| 3 * (k % 3) + j % 3 + 9 * (3 * (k / 3) + j / 3)).collect();
        unit_ok(row) && unit_ok(column) && unit_ok(block)
    })
}

#[test]
fn solver_test() {
    let mut g = easy();
    let mut log: Vec<Event> = Vec::new();
    assert!(solve(&mut g, false, 0, &mut log));
    assert!(g.solved());
    assert!(log.is_empty());
}

#[test]
fn easy_is_solved_without_guessing() {
    let mut g = easy();
    let mut log: Vec<Event> = Vec::new();
    propagate(&mut g, false, &mut log);
    assert!(g.solved());
    assert!(g.solvable());
    assert!(consistent(&g));
    assert_eq!(easy_solution(), g);
    assert!(log.is_empty());
}

#[test]
fn propagation_rests_on_a_fixpoint() {
    let mut g = easy();
    let mut log: Vec<Event> = Vec::new();
    propagate(&mut g, false, &mut log);
    let before = g;
    assert!(!constrain(&mut g));
    assert_eq!(before, g);
}

#[test]
fn invalid_is_unsolvable() {
    let mut g = invalid();
    let mut log: Vec<Event> = Vec::new();
    assert!(!solve(&mut g, false, 0, &mut log));
    assert!(!g.solved());
    assert!(!g.solvable());
}

#[test]
fn expert_needs_guessing() {
    let mut g = expert();
    let mut log: Vec<Event> = Vec::new();
    propagate(&mut g, false, &mut log);
    assert!(!g.solved());
    assert!(g.solvable());

    let mut g = expert();
    assert!(solve(&mut g, false, 0, &mut log));
    assert!(g.solved());
    assert!(g.solvable());
    assert!(consistent(&g));
    assert_eq!(expert_solution(), g);
}

#[test]
fn solved_board_keeps_the_givens() {
    let given = cells(&expert());
    let mut g = expert();
    let mut log: Vec<Event> = Vec::new();
    assert!(solve(&mut g, false, 0, &mut log));
    let found = cells(&g);
    for i in 0..Grid::SIZE {
        if given[i] < 10 {
            assert_eq!(given[i], found[i]);
        }
    }
}

#[test]
fn top_row_only_is_neither_solved_nor_unsolvable() {
    let mut g = top_row_only();
    let mut log: Vec<Event> = Vec::new();
    propagate(&mut g, false, &mut log);
    assert!(!g.solved());
    assert!(g.solvable());
    let rest = Grid::new(&[
        1, 2, 3, 4, 5, 6, 7, 8, 9, //
        456789, 456789, 456789, 123789, 123789, 123789, 123456, 123456, 123456, //
        456789, 456789, 456789, 123789, 123789, 123789, 123456, 123456, 123456, //
        23456789, 13456789, 12456789, 12356789, 12346789, 12345789, 12345689, 12345679, 12345678,
        23456789, 13456789, 12456789, 12356789, 12346789, 12345789, 12345689, 12345679, 12345678,
        23456789, 13456789, 12456789, 12356789, 12346789, 12345789, 12345689, 12345679, 12345678,
        23456789, 13456789, 12456789, 12356789, 12346789, 12345789, 12345689, 12345679, 12345678,
        23456789, 13456789, 12456789, 12356789, 12346789, 12345789, 12345689, 12345679, 12345678,
        23456789, 13456789, 12456789, 12356789, 12346789, 12345789, 12345689, 12345679, 12345678,
    ]);
    assert_eq!(rest, g);
}

#[test]
fn top_row_only_is_completed_by_guessing() {
    let mut g = top_row_only();
    let mut log: Vec<Event> = Vec::new();
    assert!(solve(&mut g, false, 0, &mut log));
    assert!(consistent(&g));
    assert_eq!(vec![1, 2, 3, 4, 5, 6, 7, 8, 9], cells(&g)[..9].to_vec());
}

#[test]
fn naked_single_leaves_its_peers() {
    let mut values = [A; 81];
    values[40] = 5;
    let mut g = Grid::new(&values);
    assert!(constrain(&mut g));
    let v = cells(&g);
    for i in 0..81 {
        let (x, y) = (i % 9, i / 9);
        let peer = i != 40 && (x == 4 || y == 4 || (x / 3 == 1 && y / 3 == 1));
        let expected = if i == 40 {
            5
        } else if peer {
            12346789
        } else {
            A
        };
        assert_eq!(expected, v[i], "cell {}", i);
    }
    // a second sweep finds nothing more to do
    assert!(!constrain(&mut g));
}

#[test]
fn hidden_single_is_forced_by_the_row() {
    // the other cells of the first row leave only 9 for the first cell
    let mut values = [A; 81];
    for x in 1..9 {
        values[x] = 12345678;
    }
    let mut g = Grid::new(&values);
    assert!(constrain(&mut g));
    let v = cells(&g);
    assert_eq!(9, v[0]);
    // the forced digit then left the column and the box within the same visit
    assert_eq!(12345678, v[9]);
    assert_eq!(12345678, v[72]);
    assert_eq!(12345678, v[10]);
    assert_eq!(12345678, v[20]);
    assert_eq!(A, v[30]);
}

#[test]
fn hidden_single_is_forced_by_the_column_and_by_the_box() {
    let mut values = [A; 81];
    for y in 1..9 {
        values[4 + 9 * y] = 12345679;
    }
    let mut g = Grid::new(&values);
    assert!(constrain(&mut g));
    assert_eq!(8, cells(&g)[4]);

    let mut values = [A; 81];
    for i in [30, 31, 32, 39, 41, 48, 49, 50] {
        values[i] = 23456789;
    }
    let mut g = Grid::new(&values);
    assert!(constrain(&mut g));
    assert_eq!(1, cells(&g)[40]);
}

#[test]
fn no_digit_is_forced_where_the_peers_leave_out_two() {
    let mut values = [A; 81];
    for x in 1..9 {
        values[x] = 1234567;
    }
    let mut g = Grid::new(&values);
    let before = g;
    assert!(!constrain(&mut g));
    assert_eq!(before, g);
}

#[test]
fn empty_cell_takes_nothing_from_its_peers() {
    let mut values = [A; 81];
    values[0] = 0;
    let mut g = Grid::new(&values);
    let before = g;
    assert!(!constrain(&mut g));
    assert_eq!(before, g);
    let mut log: Vec<Event> = Vec::new();
    assert!(!solve(&mut g, false, 0, &mut log));
    assert_eq!(before, g);
}

#[test]
fn solved_board_is_left_as_it_is() {
    let mut g = easy_solution();
    assert!(!constrain(&mut g));
    assert_eq!(easy_solution(), g);
    let mut log: Vec<Event> = Vec::new();
    assert!(solve(&mut g, false, 0, &mut log));
    assert_eq!(easy_solution(), g);
}

#[test]
fn interactive_records_the_course() {
    let mut g = easy_solution();
    let mut log: Vec<Event> = Vec::new();
    assert!(solve(&mut g, true, 0, &mut log));
    assert_eq!(vec![Event::State(easy_solution()), Event::Solved], log);

    let mut g = invalid();
    let mut log: Vec<Event> = vec![Event::Solved];
    assert!(!solve(&mut g, true, 0, &mut log));
    assert_eq!(Event::Solved, log[0]);
    assert_eq!(Event::State(invalid()), log[1]);
    assert_eq!(Event::DeadEnd, log[log.len() - 1]);
    assert_eq!(Event::State(g), log[log.len() - 2]);
}

#[test]
fn interactive_records_guesses() {
    let mut quiet = expert();
    let mut log: Vec<Event> = Vec::new();
    assert!(solve(&mut quiet, false, 0, &mut log));
    assert!(log.is_empty());

    let mut g = expert();
    assert!(solve(&mut g, true, 7, &mut log));
    // watching changes nothing
    assert_eq!(quiet, g);
    assert_eq!(Event::State(expert()), log[0]);
    assert_eq!(Event::Solved, log[log.len() - 1]);
    let first = log.iter().find(|e| matches!(e, Event::Guess { .. })).unwrap();
    match *first {
        Event::Guess { index, guess, from, guesses } => {
            assert!(index < Grid::SIZE);
            assert_eq!(8, guesses);
            assert_eq!(from.min(), guess);
            assert!(from.count() >= 2);
        }
        _ => unreachable!(),
    }
}

fn medium() -> Grid {
    Grid::new(&[
        2, A, A, A, 8, A, 3, A, A, //
        A, 6, A, A, 7, A, A, 8, 4, //
        A, 3, A, 5, A, A, 2, A, 9, //
        A, A, A, 1, A, 5, 4, A, 8, //
        A, A, A, A, A, A, A, A, A, //
        4, A, 2, 7, A, 6, A, A, A, //
        3, A, 1, A, A, 7, A, 4, A, //
        7, 2, A, A, 4, A, A, 6, A, //
        A, A, 4, A, 1, A, A, A, 3,
    ])
}

fn hard() -> Grid {
    Grid::new(&[
        A, A, A, A, A, A, 9, A, 7, //
        A, A, A, 4, 2, A, 1, 8, A, //
        A, A, A, 7, A, 5, A, 2, 6, //
        1, A, A, 9, A, 4, A, A, A, //
        A, 5, A, A, A, A, A, 4, A, //
        A, A, A, 5, A, 7, A, A, 9, //
        9, 2, A, 1, A, 8, A, A, A, //
        A, 3, 4, A, 5, 9, A, A, A, //
        5, A, 7, A, A, A, A, A, A,
    ])
}

#[test]
fn medium_and_hard_are_solved_without_guessing() {
    let mut log: Vec<Event> = Vec::new();
    let mut g = medium();
    propagate(&mut g, false, &mut log);
    assert!(g.solved());
    assert!(consistent(&g));
    assert_eq!(
        "2 4 5 |9 8 1 |3 7 6\n\
         1 6 9 |2 7 3 |5 8 4\n\
         8 3 7 |5 6 4 |2 1 9\n\
         ------+------+------\n\
         9 7 6 |1 2 5 |4 3 8\n\
         5 1 3 |4 9 8 |6 2 7\n\
         4 8 2 |7 3 6 |9 5 1\n\
         ------+------+------\n\
         3 9 1 |6 5 7 |8 4 2\n\
         7 2 8 |3 4 9 |1 6 5\n\
         6 5 4 |8 1 2 |7 9 3",
        g.to_string()
    );
    let mut g = hard();
    propagate(&mut g, false, &mut log);
    assert!(g.solved());
    assert!(consistent(&g));
}
