use algorithms::maze_solver::{solve, Error, Point};

#[test]
fn maze_solver_test() {
    let maze = vec![
        vec!["X", "X", "X", "X", "X", "X", "X", "X", " ", "X"],
        vec!["X", " ", " ", " ", " ", " ", " ", "X", " ", "X"],
        vec!["X", " ", " ", " ", " ", " ", " ", "X", " ", "X"],
        vec!["X", " ", "X", "X", "X", "X", "X", "X", " ", "X"],
        vec!["X", " ", " ", " ", " ", " ", " ", " ", " ", "X"],
        vec!["X", " ", "X", "X", "X", "X", "X", "X", "X", "X"],
    ];

    let start = Point { x: 8, y: 0 };
    let end = Point { x: 1, y: 5 };

    let result = solve(maze, "X", start, end);
    assert!(result.is_ok());

    let path = result.unwrap();

    assert_eq!(
        path,
        vec![
            Point { x: 8, y: 0 },
            Point { x: 8, y: 1 },
            Point { x: 8, y: 2 },
            Point { x: 8, y: 3 },
            Point { x: 8, y: 4 },
            Point { x: 7, y: 4 },
            Point { x: 6, y: 4 },
            Point { x: 5, y: 4 },
            Point { x: 4, y: 4 },
            Point { x: 3, y: 4 },
            Point { x: 2, y: 4 },
            Point { x: 1, y: 4 },
            Point { x: 1, y: 5 },
        ]
    );
}

#[test]
fn maze_solver_test_no_solution() {
    let maze = vec![
        vec!["X", "X", "X", "X", "X", "X", "X", "X", " ", "X"],
        vec!["X", " ", " ", " ", " ", " ", " ", "X", " ", "X"],
        vec!["X", " ", " ", " ", " ", " ", " ", "X", " ", "X"],
        vec!["X", " ", "X", "X", "X", "X", "X", "X", " ", "X"],
        vec!["X", " ", " ", " ", " ", "X", " ", " ", " ", "X"],
        vec!["X", " ", "X", "X", "X", "X", "X", "X", "X", "X"],
    ];

    let start = Point { x: 8, y: 0 };
    let end = Point { x: 1, y: 5 };

    let result = solve(maze, "X", start, end);
    assert!(result.is_err());

    let path = result.unwrap_err();

    assert!(matches!(path, Error::NoSolution));
}

#[test]
fn maze_solver_test_invalid_maze() {
    let maze = vec![];

    let start = Point { x: 8, y: 0 };
    let end = Point { x: 1, y: 5 };

    let result = solve(maze, "X", start, end);
    assert!(result.is_err());

    let path = result.unwrap_err();

    assert!(matches!(path, Error::InvalidMaze));
}

#[test]
fn maze_solver_start_is_end() {
    let maze = vec![vec![" ", " "], vec![" ", " "]];
    let result = solve(maze, "X", Point { x: 1, y: 1 }, Point { x: 1, y: 1 });
    assert_eq!(result.unwrap(), vec![Point { x: 1, y: 1 }]);
}

#[test]
fn maze_solver_start_on_a_wall_or_off_the_maze() {
    let maze = vec![vec!["X", " "], vec![" ", " "]];
    let result = solve(maze.clone(), "X", Point { x: 0, y: 0 }, Point { x: 1, y: 1 });
    assert!(matches!(result, Err(Error::NoSolution)));
    let result = solve(maze, "X", Point { x: 5, y: 0 }, Point { x: 1, y: 1 });
    assert!(matches!(result, Err(Error::NoSolution)));
}

#[test]
fn maze_solver_wall_is_told_by_its_text() {
    // where the wall is the text "##" a cell "#" is free, and the other way
    // round
    let maze = vec![vec![" ", "#", " "], vec!["##", "##", " "]];
    let result = solve(maze.clone(), "##", Point { x: 0, y: 0 }, Point { x: 2, y: 1 });
    assert_eq!(
        result.unwrap(),
        vec![
            Point { x: 0, y: 0 },
            Point { x: 1, y: 0 },
            Point { x: 2, y: 0 },
            Point { x: 2, y: 1 },
        ]
    );
    let result = solve(maze, "#", Point { x: 0, y: 0 }, Point { x: 2, y: 1 });
    assert_eq!(
        result.unwrap(),
        vec![
            Point { x: 0, y: 0 },
            Point { x: 0, y: 1 },
            Point { x: 1, y: 1 },
            Point { x: 2, y: 1 },
        ]
    );
}

#[test]
fn maze_solver_looks_below_first_then_right() {
    // two ways lead round the wall in the middle; the one that starts
    // downwards is taken
    let maze = vec![
        vec![" ", " ", " "],
        vec![" ", "X", " "],
        vec![" ", " ", " "],
    ];
    let result = solve(maze, "X", Point { x: 0, y: 0 }, Point { x: 2, y: 2 });
    assert_eq!(
        result.unwrap(),
        vec![
            Point { x: 0, y: 0 },
            Point { x: 0, y: 1 },
            Point { x: 0, y: 2 },
            Point { x: 1, y: 2 },
            Point { x: 2, y: 2 },
        ]
    );
}
