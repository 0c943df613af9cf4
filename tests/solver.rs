use maze_solver::{color_path, distance_between, find_path, reconstruct_path, solve, Cell, Maze, Point, SolveError};
use std::collections::HashMap;

/// Builds a maze from rows of text: `.` free, `#` blocked, `o` route mark, `?` unknown.
fn maze_of(rows: &[&str]) -> Maze {
    let height = rows.len() as u32;
    let width = if rows.is_empty() { 0 } else { rows[0].len() as u32 };
    let mut cells = Vec::new();
    for row in rows {
        for c in row.chars() {
            cells.push(match c {
                '.' => Cell::Free,
                '#' => Cell::Blocked,
                'o' => Cell::Path,
                _ => Cell::Unknown,
            });
        }
    }
    Maze::new(width, height, cells).unwrap()
}

fn pt(x: i32, y: i32) -> Point {
    Point { x, y }
}

fn unmark(maze: &Maze) -> Maze {
    let cells: Vec<Cell> = maze
        .cells()
        .iter()
        .map(|c| if *c == Cell::Path { Cell::Free } else { *c })
        .collect();
    Maze::new(maze.width() as u32, maze.height() as u32, cells).unwrap()
}

fn is_unit_walk(maze: &Maze, path: &[Point]) -> bool {
    path.windows(2).all(|w| {
        let d = (w[0].x - w[1].x).abs() + (w[0].y - w[1].y).abs();
        d == 1 && maze.cell(w[0]) == Cell::Free && maze.cell(w[1]) == Cell::Free
    })
}

#[test]
fn straight_column_route() {
    let maze = maze_of(&["#.#", "#.#", "#.#"]);
    assert_eq!(find_path(&maze), Ok(vec![pt(1, 0), pt(1, 1), pt(1, 2)]));
}

#[test]
fn straight_column_rendered() {
    let maze = maze_of(&["#.#", "#.#", "#.#"]);
    let solved = solve(&maze).unwrap();
    let expected = maze_of(&["#o#", "#o#", "#o#"]);
    assert_eq!(solved.cells(), expected.cells());
    assert_eq!(maze.cells(), maze_of(&["#.#", "#.#", "#.#"]).cells());
}

#[test]
fn isolated_corners_have_no_path() {
    let maze = maze_of(&[".##", "###", "##."]);
    assert_eq!(find_path(&maze), Err(SolveError::NoPathExists));
    assert!(matches!(solve(&maze), Err(SolveError::NoPathExists)));
}

#[test]
fn no_opening_on_top_row() {
    let maze = maze_of(&["###", "...", ".#."]);
    assert_eq!(find_path(&maze), Err(SolveError::StartNotFound));
    assert!(matches!(solve(&maze), Err(SolveError::StartNotFound)));
}

#[test]
fn no_opening_on_bottom_row() {
    let maze = maze_of(&["#.#", "...", "###"]);
    assert_eq!(find_path(&maze), Err(SolveError::EndNotFound));
}

#[test]
fn empty_maze_has_no_start() {
    let maze = Maze::new(0, 0, Vec::new()).unwrap();
    assert_eq!(find_path(&maze), Err(SolveError::StartNotFound));
}

#[test]
fn single_free_cell_is_its_own_route() {
    let maze = maze_of(&["."]);
    assert_eq!(find_path(&maze), Ok(vec![pt(0, 0)]));
}

#[test]
fn leftmost_openings_are_the_endpoints() {
    let maze = maze_of(&["#.#.#", "#...#", "#.#.#"]);
    let path = find_path(&maze).unwrap();
    assert_eq!(path[0], pt(1, 0));
    assert_eq!(*path.last().unwrap(), pt(1, 2));
    assert_eq!(path.len(), 3);
}

#[test]
fn winding_route_steps_are_unit() {
    let maze = maze_of(&[
        "#.#######",
        "#.....#.#",
        "#####.#.#",
        "#.....#.#",
        "#.#####.#",
        "#.......#",
        "#######.#",
    ]);
    let path = find_path(&maze).unwrap();
    assert_eq!(path[0], pt(1, 0));
    assert_eq!(*path.last().unwrap(), pt(7, 6));
    assert!(is_unit_walk(&maze, &path));
    assert_eq!(path.len(), 21);
}

#[test]
fn shortest_of_two_routes() {
    let maze = maze_of(&[
        "#.#####",
        "#.....#",
        "#.###.#",
        "#.###.#",
        "#.###.#",
        "#.....#",
        "#.#####",
    ]);
    let path = find_path(&maze).unwrap();
    assert_eq!(path.len(), 7);
    assert!(path.iter().all(|p| p.x == 1));
}

#[test]
fn open_field_route_is_shortest() {
    let maze = maze_of(&["....", "....", "....", "...."]);
    let path = find_path(&maze).unwrap();
    assert_eq!(path.len(), 4);
    assert!(is_unit_walk(&maze, &path));
}

#[test]
fn rerun_on_rendered_maze_is_no_longer() {
    let maze = maze_of(&[
        "#.#####",
        "#.....#",
        "#.###.#",
        "#.#...#",
        "#.#.###",
        "#...#.#",
        "###.#.#",
    ]);
    let path = find_path(&maze).unwrap();
    let solved = solve(&maze).unwrap();
    let again = find_path(&unmark(&solved)).unwrap();
    assert!(again.len() <= path.len());
    assert_eq!(unmark(&solved).cells(), maze.cells());
}

#[test]
fn rendered_maze_with_marks_is_not_binary() {
    let maze = maze_of(&["#.#", "#.#", "#.#"]);
    let solved = solve(&maze).unwrap();
    assert_eq!(find_path(&solved), Err(SolveError::StartNotFound));
}

#[test]
fn disconnected_regions_have_no_path() {
    let maze = maze_of(&["#.###", "#.#.#", "###.#", "#...#", "#.###"]);
    assert_eq!(find_path(&maze), Err(SolveError::NoPathExists));
}

#[test]
fn unknown_cell_next_to_route_is_an_error() {
    let maze = maze_of(&["#.#", "#?.", "#.#"]);
    assert_eq!(find_path(&maze), Err(SolveError::UnknownCellClassification));
    assert!(matches!(solve(&maze), Err(SolveError::UnknownCellClassification)));
}

#[test]
fn unknown_cell_out_of_reach_is_ignored() {
    let maze = maze_of(&["#.##?", "#.###", "#.#?#"]);
    assert_eq!(find_path(&maze), Ok(vec![pt(1, 0), pt(1, 1), pt(1, 2)]));
}

#[test]
fn distance_between_exact_values() {
    assert_eq!(distance_between(&pt(0, 0), &pt(3, 4)), 5);
    assert_eq!(distance_between(&pt(0, 0), &pt(1, 1)), 1);
    assert_eq!(distance_between(&pt(5, 5), &pt(7, 8)), 3);
    assert_eq!(distance_between(&pt(2, 2), &pt(2, 2)), 0);
    assert_eq!(distance_between(&pt(10, 0), &pt(0, 0)), 10);
}

#[test]
fn distance_between_extreme_coordinates() {
    let far = distance_between(&pt(i32::MIN, i32::MIN), &pt(i32::MAX, i32::MAX));
    let n: u128 = 2 * (u32::MAX as u128) * (u32::MAX as u128);
    let r = far as u128;
    assert!(r * r <= n && n < (r + 1) * (r + 1));
}

#[test]
fn reconstruct_path_walks_back_to_start() {
    let maze = maze_of(&["...", "...", "..."]);
    // (0,0) <- (1,0) <- (1,1) <- (1,2), cells keyed by row * width + column
    let mut came_from: HashMap<u64, u64> = HashMap::new();
    came_from.insert(1, 0);
    came_from.insert(4, 1);
    came_from.insert(7, 4);
    let path = reconstruct_path(&maze, &came_from, pt(1, 2));
    assert_eq!(path, vec![pt(1, 2), pt(1, 1), pt(1, 0), pt(0, 0)]);
}

#[test]
fn reconstruct_path_without_predecessor() {
    let maze = maze_of(&["..", ".."]);
    let came_from: HashMap<u64, u64> = HashMap::new();
    assert_eq!(reconstruct_path(&maze, &came_from, pt(1, 1)), vec![pt(1, 1)]);
}

#[test]
fn color_path_marks_only_route_cells() {
    let maze = maze_of(&["...", "#.#", "..."]);
    let solved = color_path(&maze, vec![pt(0, 0), pt(2, 2)]);
    assert_eq!(solved.cells(), maze_of(&["o..", "#.#", "..o"]).cells());
    assert_eq!(solved.width(), 3);
    assert_eq!(solved.height(), 3);
}

#[test]
fn maze_new_checks_sizes() {
    assert!(Maze::new(2, 2, vec![Cell::Free; 3]).is_none());
    assert!(Maze::new(0x8000_0000, 0, Vec::new()).is_none());
    let maze = Maze::new(3, 2, vec![Cell::Blocked; 6]).unwrap();
    assert_eq!(maze.width(), 3);
    assert_eq!(maze.height(), 2);
    assert_eq!(maze.cell(pt(2, 1)), Cell::Blocked);
}

#[test]
fn error_messages() {
    assert_eq!(SolveError::StartNotFound.message(), "Unable to find start point for maze!");
    assert_eq!(SolveError::EndNotFound.message(), "Unable to find end point for maze!");
    assert_eq!(SolveError::NoPathExists.message(), "unable to find a path that solves the maze!");
    assert_eq!(
        SolveError::UnknownCellClassification.message(),
        "the maze holds a cell that is neither free nor blocked"
    );
}

#[test]
fn unknown_cell_between_endpoints_is_not_no_path() {
    let maze = maze_of(&["#.#", "#?#", "#.#"]);
    assert_eq!(find_path(&maze), Err(SolveError::UnknownCellClassification));
}

#[test]
fn unknown_cell_beside_start_wins_over_route() {
    let maze = maze_of(&["?..", "#.#", "#.#"]);
    assert_eq!(find_path(&maze), Err(SolveError::UnknownCellClassification));
}
