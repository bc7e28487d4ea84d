use maze::{Matrix, Maze, Neighbours};

#[test]
fn test_matrix_new_defaults_and_set_get() {
    let mut mx: Matrix<usize> = Matrix::new(3, 4);
    for i in 0..3 {
        for j in 0..4 {
            assert_eq!(*mx.get((i, j)), 0);
        }
    }
    mx.set((1, 2), 7);
    assert_eq!(*mx.get((1, 2)), 7);
    assert_eq!(*mx.get((1, 1)), 0);
    assert_eq!(*mx.get((2, 2)), 0);
    assert_eq!(mx.n_rows(), 3);
    assert_eq!(mx.n_cols(), 4);
}

#[test]
fn test_neighbours_order() {
    let mut nb = Neighbours::of((1, 1));
    assert_eq!(nb.next(), Some((0, 1)));
    assert_eq!(nb.next(), Some((1, 2)));
    assert_eq!(nb.next(), Some((2, 1)));
    assert_eq!(nb.next(), Some((1, 0)));
    assert_eq!(nb.next(), None);
}

#[test]
fn test_neighbours_wrap_out_of_range() {
    // Stepping above row 0 or left of column 0 wraps far outside any maze,
    // so a bounds check rejects the candidate.
    let mut nb = Neighbours::of((0, 0));
    assert_eq!(nb.next(), Some((usize::MAX, 0)));
    assert_eq!(nb.next(), Some((0, 1)));
    assert_eq!(nb.next(), Some((1, 0)));
    assert_eq!(nb.next(), Some((0, usize::MAX)));
    assert_eq!(nb.next(), None);
}

#[test]
fn test_is_exit_and_is_valid() {
    let maze: Maze = Matrix::new(4, 5);
    assert!(maze.is_exit((0, 2)));
    assert!(maze.is_exit((3, 2)));
    assert!(maze.is_exit((2, 0)));
    assert!(maze.is_exit((2, 4)));
    assert!(!maze.is_exit((1, 1)));
    assert!(!maze.is_exit((2, 3)));
    assert!(maze.is_valid((3, 4)));
    assert!(!maze.is_valid((4, 0)));
    assert!(!maze.is_valid((0, 5)));
    assert!(!maze.is_valid((usize::MAX, 0)));
}

#[test]
fn test_generate_dimensions_and_open_exit() {
    let maze = Maze::generate(9, 7);
    assert_eq!(maze.n_rows(), 9);
    assert_eq!(maze.n_cols(), 7);
    // Generation always carves one boundary exit cell open.
    let mut open_exit = false;
    for i in 0..9 {
        for j in 0..7 {
            let boundary = i == 0 || i == 8 || j == 0 || j == 6;
            if boundary && !*maze.get((i, j)) {
                open_exit = true;
            }
        }
    }
    assert!(open_exit);
}

#[test]
fn test_generated_open_cells_solvable() {
    let maze = Maze::generate(12, 9);
    for i in 0..12 {
        for j in 0..9 {
            if !*maze.get((i, j)) {
                let boundary = i == 0 || i == 11 || j == 0 || j == 8;
                assert!(maze.solve((i, j)).is_some() || boundary);
            }
        }
    }
}

#[test]
fn test_generate_single_cell() {
    let maze = Maze::generate(1, 1);
    assert!(!*maze.get((0, 0)));
}
