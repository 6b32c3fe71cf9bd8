use r2048::{Action, Game, Grid};

fn rows(a: [[u32; 4]; 4]) -> Vec<Vec<u32>> {
    a.iter().map(|r| r.to_vec()).collect()
}

#[test]
fn test_update() {
    /*
       Cases:
       - Merge
       - Skip through
       - No merge
       - No double merges
       - Merge ordering based on action
    */
    let test_cases = [
        (
            [
                [0, 2, 0, 2], // Merge and skip through
                [0, 2, 4, 0], // Not merge
                [2, 2, 2, 2], // No double merges
                [2, 2, 0, 2], // Merge ordering
            ],
            Action::Left,
            [[4, 0, 0, 0], [2, 4, 0, 0], [4, 4, 0, 0], [4, 2, 0, 0]],
        ),
        (
            [
                [2, 0, 2, 0], // Merge and skip through
                [0, 2, 4, 0], // Not merge
                [2, 2, 2, 2], // No double merges
                [2, 2, 0, 2], // Merge ordering
            ],
            Action::Right,
            [[0, 0, 0, 4], [0, 0, 2, 4], [0, 0, 4, 4], [0, 0, 2, 4]],
        ),
        (
            [
                [0, 2, 2, 2], // Merge and skip through
                [2, 0, 2, 0], // Not merge
                [0, 4, 2, 2], // No double merges
                [2, 0, 2, 2], // Merge ordering
            ],
            Action::Up,
            [[4, 2, 4, 4], [0, 4, 4, 2], [0, 0, 0, 0], [0, 0, 0, 0]],
        ),
        (
            [
                [2, 0, 2, 2], // Merge and skip through
                [0, 2, 2, 0], // Not merge
                [2, 0, 2, 2], // No double merges
                [0, 4, 2, 2], // Merge ordering
            ],
            Action::Down,
            [[0, 0, 0, 0], [0, 0, 0, 0], [0, 2, 4, 2], [4, 4, 4, 4]],
        ),
    ];

    for (cells, action, expected_val) in test_cases {
        let mut g = Grid::new();
        g.cells = rows(cells);
        g.update(action);
        assert_eq!(g.cells, rows(expected_val));
    }
}

#[test]
fn test_game_over() {
    let test_cases = [
        (
            // Has empty cell
            [
                [64, 2, 4, 8],
                [2, 4, 0, 16],
                [4, 8, 16, 32],
                [8, 16, 32, 64],
            ],
            false,
        ),
        (
            // Merge possible (row-wise)
            [
                [2, 2, 8, 16],
                [4, 8, 16, 32],
                [8, 16, 32, 64],
                [16, 32, 64, 128],
            ],
            false,
        ),
        (
            // Merge possible (col-wise)
            [
                [2, 4, 8, 16],
                [2, 8, 16, 32],
                [8, 16, 32, 64],
                [16, 32, 64, 128],
            ],
            false,
        ),
        (
            // No moves left
            [
                [64, 2, 4, 8],
                [2, 4, 8, 16],
                [4, 8, 16, 32],
                [8, 16, 32, 64],
            ],
            true,
        ),
    ];

    for (cells, expected_val) in test_cases {
        let mut g = Grid::new();
        g.cells = rows(cells);
        assert_eq!(g.game_over(), expected_val);
    }
}

#[test]
fn grid_test_transpose() {
    let mut g = Grid::new();
    g.cells = rows([
        [2, 4, 8, 16],
        [8, 16, 32, 64],
        [16, 64, 128, 256],
        [32, 128, 512, 1024],
    ]);

    g.transpose();
    assert_eq!(
        g.cells,
        rows([
            [2, 8, 16, 32],
            [4, 16, 64, 128],
            [8, 32, 128, 512],
            [16, 64, 256, 1024],
        ])
    );

    // transpose == inverse
    let mut h = g.clone();
    h.transpose();
    h.transpose();
    assert_eq!(h.cells, g.cells);
}

#[test]
fn test_is_vertical() {
    let test_cases = [
        (Action::Up, true),
        (Action::Down, true),
        (Action::Left, false),
        (Action::Right, false),
    ];

    for (action, expected_val) in test_cases {
        assert_eq!(action.is_vertical(), expected_val);
    }
}

#[test]
fn test_transpose() {
    let test_cases = [
        (Action::Up, Action::Left),
        (Action::Down, Action::Right),
        (Action::Left, Action::Up),
        (Action::Right, Action::Down),
    ];

    for (action, expected_val) in test_cases {
        assert_eq!(action.transpose(), expected_val);

        // transpose == inverse
        assert_eq!(action.transpose().transpose(), action);
    }
}

#[test]
fn test_no_double_merge_row() {
    let mut g = Grid::new();
    g.cells = rows([[2, 2, 2, 2], [0; 4], [0; 4], [0; 4]]);
    g.update(Action::Left);
    assert_eq!(g.cells[0], vec![4, 4, 0, 0]);
}

#[test]
fn test_skip_through_merge_row() {
    let mut g = Grid::new();
    g.cells = rows([[0, 2, 0, 2], [0; 4], [0; 4], [0; 4]]);
    g.update(Action::Left);
    assert_eq!(g.cells[0], vec![4, 0, 0, 0]);
}

#[test]
fn test_end_to_end_rows() {
    let mut g = Grid::new();
    g.cells = rows([[2, 0, 2, 0], [0; 4], [0; 4], [0; 4]]);
    g.update(Action::Right);
    assert_eq!(g.cells[0], vec![0, 0, 0, 4]);

    // A column [0, 2, 2, 2] moved Up behaves as the row moved Left.
    let mut h = Grid::new();
    h.cells = rows([[0; 4], [2, 0, 0, 0], [2, 0, 0, 0], [2, 0, 0, 0]]);
    h.update(Action::Up);
    let col: Vec<u32> = (0..4).map(|i| h.cells[i][0]).collect();
    assert_eq!(col, vec![4, 2, 0, 0]);

    let mut r = Grid::new();
    r.cells = rows([[0, 2, 2, 2], [0; 4], [0; 4], [0; 4]]);
    r.update(Action::Left);
    assert_eq!(r.cells[0], vec![4, 2, 0, 0]);
}

#[test]
fn test_insert_random_cell_full_grid_noop() {
    let full = [
        [2, 4, 8, 16],
        [4, 8, 16, 32],
        [8, 16, 32, 64],
        [16, 32, 64, 128],
    ];
    let mut g = Grid::new();
    g.cells = rows(full);
    g.insert_random_cell();
    assert_eq!(g.cells, rows(full));
}

#[test]
fn test_insert_random_cell_single_empty() {
    let mut g = Grid::new();
    g.cells = rows([
        [2, 4, 8, 16],
        [4, 8, 0, 32],
        [8, 16, 32, 64],
        [16, 32, 64, 128],
    ]);
    g.insert_random_cell();
    // The only empty cell was filled with a 2; nothing else moved.
    assert_eq!(
        g.cells,
        rows([
            [2, 4, 8, 16],
            [4, 8, 2, 32],
            [8, 16, 32, 64],
            [16, 32, 64, 128],
        ])
    );
}

#[test]
fn test_insert_random_cell_never_overwrites() {
    let mut g = Grid::new();
    g.cells = rows([[2, 4, 8, 16], [4, 8, 16, 32], [0; 4], [0; 4]]);
    let before = g.cells.clone();
    g.insert_random_cell();
    let mut changed = 0;
    for i in 0..4 {
        for j in 0..4 {
            if g.cells[i][j] != before[i][j] {
                assert_eq!(before[i][j], 0);
                assert_eq!(g.cells[i][j], 2);
                changed += 1;
            }
        }
    }
    assert_eq!(changed, 1);
}

#[test]
fn test_new_grid_contents() {
    let g = Grid::new();
    let mut twos = 0;
    for i in 0..4 {
        for j in 0..4 {
            let v = g.cells[i][j];
            assert!(v == 0 || v == 2);
            if v == 2 {
                twos += 1;
            }
        }
    }
    assert_eq!(twos, 3);
}

#[test]
fn test_game_starts_playable() {
    let game = Game::new();
    assert!(!game.grid.game_over());
}

#[test]
fn test_new_game_contents() {
    let game = Game::new();
    let mut twos = 0;
    for i in 0..4 {
        for j in 0..4 {
            let v = game.grid.cells[i][j];
            assert!(v == 0 || v == 2);
            if v == 2 {
                twos += 1;
            }
        }
    }
    assert_eq!(twos, 3);
}

#[test]
fn test_render_uniform_width() {
    let mut g = Grid::new();
    g.cells = rows([[2, 4, 8, 16], [0, 0, 0, 0], [32, 64, 128, 256], [0, 2, 0, 2]]);
    // The widest numeral is three digits wide, so every field is padded to
    // three characters and followed by one space.
    let expected = "2   4   8   16  \n\
                    0   0   0   0   \n\
                    32  64  128 256 \n\
                    0   2   0   2   \n";
    assert_eq!(g.render(), expected);
}

#[test]
fn test_render_single_digits() {
    let mut g = Grid::new();
    g.cells = rows([[2, 0, 0, 0], [0, 4, 0, 0], [0, 0, 8, 0], [0, 0, 0, 2]]);
    let expected = "2 0 0 0 \n0 4 0 0 \n0 0 8 0 \n0 0 0 2 \n";
    assert_eq!(g.render(), expected);
}

#[test]
fn test_power_of_two_values_after_moves() {
    let mut g = Grid::new();
    for action in [Action::Left, Action::Down, Action::Right, Action::Up] {
        g.update(action);
        g.insert_random_cell();
    }
    for i in 0..4 {
        for j in 0..4 {
            let v = g.cells[i][j];
            assert!(v == 0 || v.is_power_of_two());
        }
    }
}
