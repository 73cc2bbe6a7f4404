use sudoku::{Cell, Grid};

#[test]
fn grid_test() {
    // solved grid
    let mut g = Grid::new(&[
        4, 8, 3, 9, 2, 1, 6, 5, 7, //
        9, 6, 7, 3, 4, 5, 8, 2, 1, //
        2, 5, 1, 8, 7, 6, 4, 9, 3, //
        5, 4, 8, 1, 3, 2, 9, 7, 6, //
        7, 2, 9, 5, 6, 4, 1, 3, 8, //
        1, 3, 6, 7, 9, 8, 2, 4, 5, //
        3, 7, 2, 6, 8, 9, 5, 1, 4, //
        8, 1, 4, 2, 5, 3, 7, 6, 9, //
        6, 9, 5, 4, 1, 7, 3, 8, 2,
    ]);
    assert!(g.solvable());
    assert!(g.solved());

    // simplest_unsolved_cell_index
    assert_eq!(Grid::SIZE, g.simplest_unsolved_cell_index());

    // unsolved grid
    *g.at_index(Grid::SIZE - 1) = Cell::new(1289);
    assert!(g.solvable());
    assert!(!g.solved());

    // simplest_unsolved_cell_index
    assert_eq!(Grid::SIZE - 1, g.simplest_unsolved_cell_index());

    // unsolvable grid
    *g.at_index(0) = Cell::new(0);
    assert!(!g.solvable());
    assert!(!g.solved());

    // display
    assert_eq!(
        "0 8 3 |9 2 1 |6 5 7\n\
         9 6 7 |3 4 5 |8 2 1\n\
         2 5 1 |8 7 6 |4 9 3\n\
         ------+------+------\n\
         5 4 8 |1 3 2 |9 7 6\n\
         7 2 9 |5 6 4 |1 3 8\n\
         1 3 6 |7 9 8 |2 4 5\n\
         ------+------+------\n\
         3 7 2 |6 8 9 |5 1 4\n\
         8 1 4 |2 5 3 |7 6 9\n\
         6 9 5 |4 1 7 |3 8 _",
        g.to_string()
    );
}

const A: u32 = 123456789;

fn solved_board() -> Grid {
    Grid::new(&[
        4, 8, 3, 9, 2, 1, 6, 5, 7, //
        9, 6, 7, 3, 4, 5, 8, 2, 1, //
        2, 5, 1, 8, 7, 6, 4, 9, 3, //
        5, 4, 8, 1, 3, 2, 9, 7, 6, //
        7, 2, 9, 5, 6, 4, 1, 3, 8, //
        1, 3, 6, 7, 9, 8, 2, 4, 5, //
        3, 7, 2, 6, 8, 9, 5, 1, 4, //
        8, 1, 4, 2, 5, 3, 7, 6, 9, //
        6, 9, 5, 4, 1, 7, 3, 8, 2,
    ])
}

#[test]
fn dimensions() {
    assert_eq!(9, Grid::WIDTH);
    assert_eq!(9, Grid::HEIGHT);
    assert_eq!(81, Grid::SIZE);
}

#[test]
fn cells_stand_in_row_major_order() {
    let mut values = [0u32; 81];
    for (i, value) in values.iter_mut().enumerate() {
        *value = (i % 9 + 1) as u32 * 10 + (i / 9 + 1) as u32;
    }
    let mut g = Grid::new(&values);
    for y in 0..9 {
        for x in 0..9 {
            let expected = Cell::new((x as u32 + 1) * 10 + y as u32 + 1);
            assert_eq!(expected, *g.at_position(x, y));
            assert_eq!(expected, *g.at_index(x + 9 * y));
        }
    }
    *g.at_position(2, 7) = Cell::new(0);
    assert_eq!(Cell::new(0), *g.at_index(65));
    assert_eq!(Cell::new(28), *g.at_index(64));
    *g.at_index(66) += Cell::new(9);
    assert_eq!(Cell::new(489), *g.at_position(3, 7));
}

#[test]
fn solved_board_has_no_cell_to_branch_on() {
    let g = solved_board();
    assert!(g.solved());
    assert!(g.solvable());
    assert_eq!(Grid::SIZE, g.simplest_unsolved_cell_index());
}

#[test]
fn open_cell_is_the_one_to_branch_on() {
    for i in [0, 1, 40, 79, 80] {
        for candidates in [12, 789, A] {
            let mut g = solved_board();
            *g.at_index(i) = Cell::new(candidates);
            assert!(!g.solved());
            assert!(g.solvable());
            assert_eq!(i, g.simplest_unsolved_cell_index());
        }
    }
}

#[test]
fn empty_cell_makes_the_board_unsolvable() {
    for i in [0, 13, 80] {
        let mut g = solved_board();
        *g.at_index(i) = Cell::new(0);
        assert!(!g.solvable());
        assert!(!g.solved());
        // a cell without candidates is none to branch on
        assert_eq!(Grid::SIZE, g.simplest_unsolved_cell_index());
        let mut g = Grid::new(&[A; 81]);
        *g.at_index(i) = Cell::new(0);
        assert!(!g.solvable());
    }
}

#[test]
fn first_of_the_cells_with_fewest_candidates_is_chosen() {
    let mut g = Grid::new(&[A; 81]);
    assert_eq!(0, g.simplest_unsolved_cell_index());
    *g.at_index(50) = Cell::new(1234);
    assert_eq!(50, g.simplest_unsolved_cell_index());
    *g.at_index(60) = Cell::new(567);
    assert_eq!(60, g.simplest_unsolved_cell_index());
    *g.at_index(70) = Cell::new(789);
    assert_eq!(60, g.simplest_unsolved_cell_index());
    *g.at_index(10) = Cell::new(489);
    assert_eq!(10, g.simplest_unsolved_cell_index());
    *g.at_index(75) = Cell::new(12);
    assert_eq!(75, g.simplest_unsolved_cell_index());
    *g.at_index(80) = Cell::new(34);
    assert_eq!(75, g.simplest_unsolved_cell_index());
    *g.at_index(5) = Cell::new(9);
    *g.at_index(6) = Cell::new(0);
    assert_eq!(75, g.simplest_unsolved_cell_index());
    *g.at_index(7) = Cell::new(56);
    assert_eq!(7, g.simplest_unsolved_cell_index());
}

#[test]
fn text_of_an_open_board() {
    let g = Grid::new(&[A; 81]);
    let row = "_ _ _ |_ _ _ |_ _ _";
    let rule = "------+------+------";
    let expected = [row, row, row, rule, row, row, row, rule, row, row, row].join("\n");
    assert_eq!(expected, g.to_string());
    assert!(!g.to_string().ends_with('\n'));
}

#[test]
fn text_shows_empty_cells_as_zero() {
    let mut values = [A; 81];
    values[0] = 0;
    values[4] = 7;
    values[80] = 70;
    values[9] = 12;
    let text = Grid::new(&values).to_string();
    let lines: Vec<&str> = text.split('\n').collect();
    assert_eq!(11, lines.len());
    assert_eq!("0 _ _ |_ 7 _ |_ _ _", lines[0]);
    assert_eq!("_ _ _ |_ _ _ |_ _ _", lines[1]);
    assert_eq!("_ _ _ |_ _ _ |_ _ 7", lines[10]);
}
