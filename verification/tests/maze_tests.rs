use maze::{Matrix, Maze};

fn build(n: usize, m: usize, cells: &[u8]) -> Maze {
    let mut mz: Maze = Matrix::new(n, m);
    for i in 0..n {
        for j in 0..m {
            if cells[i * m + j] != 0 {
                mz.set((i, j), true);
            }
        }
    }
    mz
}

#[test]
fn test_simple_maze() {
    let maze = build(
        5,
        5,
        &[
            1, 0, 1, 1, 1,
            1, 0, 0, 1, 1,
            1, 1, 0, 0, 1,
            1, 0, 0, 1, 1,
            1, 1, 1, 1, 1,
        ],
    );
    let mut path = maze.solve((3, 1)).unwrap();
    // Pop, go backwards.
    assert_eq!(path.pop(), Some((0, 1)));
    assert_eq!(path.pop(), Some((1, 1)));
    assert_eq!(path.pop(), Some((1, 2)));
    assert_eq!(path.pop(), Some((2, 2)));
    assert_eq!(path.pop(), Some((3, 2)));
    assert_eq!(path.pop(), Some((3, 1)));
    assert_eq!(path.pop(), None);
}

#[test]
fn test_blocked_maze() {
    let maze = build(
        8,
        6,
        &[
            1, 1, 1, 1, 1, 1,
            1, 0, 0, 1, 0, 1,
            1, 0, 1, 1, 0, 1,
            1, 0, 0, 1, 0, 1,
            1, 1, 1, 1, 0, 1,
            1, 0, 0, 1, 0, 1,
            1, 1, 0, 0, 0, 1,
            1, 1, 1, 1, 1, 1,
        ],
    );
    let path = maze.solve((1, 2));
    assert!(path.is_none());
}

#[test]
fn test_maze_generation() {
    for _ in 0..4 {
        let maze = Maze::generate(256, 256);
        let mut path = None;
        for i in 0..maze.n_rows() {
            for j in 0..maze.n_cols() {
                if !*maze.get((i, j)) {
                    path = maze.solve((i, j))
                }
            }
        }
        assert!(path.is_some());
    }
}

#[test]
fn test_solve_from_wall_is_none() {
    let maze = build(
        5,
        5,
        &[
            1, 0, 1, 1, 1,
            1, 0, 0, 1, 1,
            1, 1, 0, 0, 1,
            1, 0, 0, 1, 1,
            1, 1, 1, 1, 1,
        ],
    );
    assert!(maze.solve((0, 0)).is_none());
    assert!(maze.solve((4, 4)).is_none());
}

#[test]
fn test_solve_is_repeatable() {
    let maze = build(
        5,
        5,
        &[
            1, 0, 1, 1, 1,
            1, 0, 0, 1, 1,
            1, 1, 0, 0, 1,
            1, 0, 0, 1, 1,
            1, 1, 1, 1, 1,
        ],
    );
    let first = maze.solve((3, 1));
    let second = maze.solve((3, 1));
    let third = maze.solve((3, 1));
    assert!(first.is_some());
    assert_eq!(first, second);
    assert_eq!(second, third);
}
