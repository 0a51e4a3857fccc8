use maze_walker::{visited, Dimensions, Maze, MazeError, Path, PixelList, Point};

fn raster(rows: &[&str]) -> Vec<u8> {
    let mut bytes = Vec::new();
    for row in rows {
        for glyph in row.chars() {
            if glyph == ' ' {
                bytes.extend_from_slice(&[255, 255, 255, 255]);
            } else {
                bytes.extend_from_slice(&[0, 0, 0, 255]);
            }
        }
    }
    bytes
}

fn maze(rows: &[&str]) -> Maze {
    let dimensions = Dimensions { width: rows[0].len() as u32, height: rows.len() as u32 };
    let list = PixelList::new(&raster(rows), dimensions).unwrap();
    Maze::new(dimensions, &list).unwrap()
}

fn at(x: usize, y: usize) -> Point {
    Point { x, y }
}

fn is_link(grid: &Maze, a: &Point, b: &Point) -> bool {
    match grid.node_at(a).unwrap().get_connections() {
        Some(links) => links.contains(b),
        None => false,
    }
}

fn assert_is_route(grid: &Maze, path: &[Point], start: Point, end: Point) {
    assert_eq!(path.first(), Some(&start));
    assert_eq!(path.last(), Some(&end));
    for (i, p) in path.iter().enumerate() {
        for q in &path[i + 1..] {
            assert_ne!(p, q);
        }
    }
    for pair in path.windows(2) {
        assert!(is_link(grid, &pair[0], &pair[1]));
    }
}

#[test]
fn straight_corridor() {
    let grid = maze(&["***", "   ", "***"]);
    let openings = grid.find_start().unwrap();
    let start = openings.get_start();
    let end = openings.get_end();
    assert_eq!(start, at(0, 1));
    assert_eq!(end, at(2, 1));
    let path = grid.solve_maze(&start, &end).unwrap();
    assert_eq!(path.points(), &[at(0, 1), at(1, 1), at(2, 1)]);
}

#[test]
fn wall_between_start_and_end() {
    let grid = maze(&["***", " * ", "***"]);
    let openings = grid.find_start().unwrap();
    assert_eq!(openings.get_start(), at(0, 1));
    assert_eq!(openings.get_end(), at(2, 1));
    let r = grid.solve_maze(&openings.get_start(), &openings.get_end());
    assert!(matches!(r, Err(MazeError::NotFound)));
}

#[test]
fn wall_across_a_larger_grid() {
    let grid = maze(&["  *  ", "  *  ", "  *  ", "  *  "]);
    let r = grid.solve_maze(&at(0, 0), &at(4, 3));
    assert!(matches!(r, Err(MazeError::NotFound)));
    let r = grid.iter_solve(&at(4, 3), &at(0, 0));
    assert!(matches!(r, Err(MazeError::NotFound)));
    let path = grid.solve_maze(&at(0, 0), &at(1, 3)).unwrap();
    assert_is_route(&grid, path.points(), at(0, 0), at(1, 3));
}

#[test]
fn single_cell_is_its_own_route() {
    let grid = maze(&[" "]);
    let openings = grid.find_start().unwrap();
    let start = openings.get_start();
    let end = openings.get_end();
    assert_eq!(start, end);
    let path = grid.solve_maze(&start, &end).unwrap();
    assert_eq!(path.points(), &[start]);
}

#[test]
fn start_equal_to_end_needs_no_step() {
    let grid = maze(&["   ", "   ", "   "]);
    let path = grid.solve_maze(&at(1, 1), &at(1, 1)).unwrap();
    assert_eq!(path.points(), &[at(1, 1)]);
    let grid = maze(&["***", "***"]);
    let path = grid.solve_maze(&at(2, 1), &at(2, 1)).unwrap();
    assert_eq!(path.points(), &[at(2, 1)]);
}

#[test]
fn east_is_tried_before_south() {
    let grid = maze(&["* ***", "*   *", "* * *", "*   *", "*** *"]);
    let openings = grid.find_start().unwrap();
    assert_eq!(openings.get_start(), at(1, 0));
    assert_eq!(openings.get_end(), at(3, 4));
    let path = grid.solve_maze(&at(1, 0), &at(3, 4)).unwrap();
    assert_eq!(
        path.points(),
        &[at(1, 0), at(1, 1), at(2, 1), at(3, 1), at(3, 2), at(3, 3), at(3, 4)]
    );
}

#[test]
fn north_is_tried_first_and_west_last() {
    let grid = maze(&["   ", "   ", "   "]);
    let path = grid.solve_maze(&at(1, 1), &at(0, 1)).unwrap();
    assert_eq!(
        path.points(),
        &[at(1, 1), at(1, 0), at(2, 0), at(2, 1), at(2, 2), at(1, 2), at(0, 2), at(0, 1)]
    );
    let path = grid.solve_maze(&at(1, 1), &at(1, 0)).unwrap();
    assert_eq!(path.points(), &[at(1, 1), at(1, 0)]);
    let path = grid.solve_maze(&at(1, 1), &at(2, 1)).unwrap();
    assert_eq!(path.points(), &[at(1, 1), at(1, 0), at(2, 0), at(2, 1)]);
}

#[test]
fn dead_end_is_left_out_of_the_route() {
    let grid = maze(&["* *****", "*   ***", "* *****", "*     *", "***** *"]);
    let openings = grid.find_start().unwrap();
    assert_eq!(openings.get_start(), at(1, 0));
    assert_eq!(openings.get_end(), at(5, 4));
    let path = grid.solve_maze(&at(1, 0), &at(5, 4)).unwrap();
    assert_eq!(
        path.points(),
        &[at(1, 0), at(1, 1), at(1, 2), at(1, 3), at(2, 3), at(3, 3), at(4, 3), at(5, 3), at(5, 4)]
    );
    assert_is_route(&grid, path.points(), at(1, 0), at(5, 4));
}

#[test]
fn route_survives_several_retreats() {
    let grid = maze(&[
        "* *******",
        "*   *   *",
        "*** * ***",
        "*   * * *",
        "* *** * *",
        "*       *",
        "******* *",
    ]);
    let openings = grid.find_start().unwrap();
    let start = openings.get_start();
    let end = openings.get_end();
    assert_eq!(start, at(1, 0));
    assert_eq!(end, at(7, 6));
    let path = grid.solve_maze(&start, &end).unwrap();
    assert_is_route(&grid, path.points(), start, end);
    assert_eq!(
        path.points(),
        &[
            at(1, 0),
            at(1, 1),
            at(2, 1),
            at(3, 1),
            at(3, 2),
            at(3, 3),
            at(2, 3),
            at(1, 3),
            at(1, 4),
            at(1, 5),
            at(2, 5),
            at(3, 5),
            at(4, 5),
            at(5, 5),
            at(6, 5),
            at(7, 5),
            at(7, 6)
        ]
    );
}

#[test]
fn walk_gives_up_after_trying_every_branch() {
    let grid = maze(&[
        "* *******",
        "*   *   *",
        "*** * ***",
        "*   * * *",
        "* *** * *",
        "*     * *",
        "******* *",
    ]);
    let openings = grid.find_start().unwrap();
    assert_eq!(openings.get_start(), at(1, 0));
    assert_eq!(openings.get_end(), at(7, 6));
    let r = grid.solve_maze(&openings.get_start(), &openings.get_end());
    assert!(matches!(r, Err(MazeError::NotFound)));
    let path = grid.solve_maze(&at(1, 0), &at(7, 1)).unwrap();
    assert_eq!(path.points().len(), 20);
    assert_is_route(&grid, path.points(), at(1, 0), at(7, 1));
}

#[test]
fn long_way_round_is_taken_where_it_comes_first() {
    let grid = maze(&[
        "* *******",
        "*   *   *",
        "*** * * *",
        "*   * * *",
        "* *** * *",
        "*       *",
        "******* *",
    ]);
    let path = grid.solve_maze(&at(1, 0), &at(7, 6)).unwrap();
    assert_is_route(&grid, path.points(), at(1, 0), at(7, 6));
    assert_eq!(
        path.points(),
        &[
            at(1, 0),
            at(1, 1),
            at(2, 1),
            at(3, 1),
            at(3, 2),
            at(3, 3),
            at(2, 3),
            at(1, 3),
            at(1, 4),
            at(1, 5),
            at(2, 5),
            at(3, 5),
            at(4, 5),
            at(5, 5),
            at(5, 4),
            at(5, 3),
            at(5, 2),
            at(5, 1),
            at(6, 1),
            at(7, 1),
            at(7, 2),
            at(7, 3),
            at(7, 4),
            at(7, 5),
            at(7, 6)
        ]
    );
}

#[test]
fn route_on_an_open_field_holds_no_coordinate_twice() {
    let grid = maze(&["     ", "     ", "     ", "     "]);
    for (start, end) in [(at(0, 0), at(4, 3)), (at(4, 3), at(0, 0)), (at(2, 1), at(2, 2)), (at(0, 3), at(4, 0))] {
        let path = grid.solve_maze(&start, &end).unwrap();
        assert_is_route(&grid, path.points(), start, end);
    }
}

#[test]
fn blocked_start_reaches_nothing() {
    let grid = maze(&["*  ", "   "]);
    assert!(matches!(grid.solve_maze(&at(0, 0), &at(2, 1)), Err(MazeError::NotFound)));
}

#[test]
fn blocked_end_is_not_reached() {
    let grid = maze(&["  *", "   "]);
    assert!(matches!(grid.solve_maze(&at(0, 0), &at(2, 0)), Err(MazeError::NotFound)));
}

#[test]
fn end_off_the_grid_is_not_reached() {
    let grid = maze(&["  ", "  "]);
    assert!(matches!(grid.solve_maze(&at(0, 0), &at(2, 0)), Err(MazeError::NotFound)));
    assert!(matches!(grid.solve_maze(&at(0, 0), &at(0, 7)), Err(MazeError::NotFound)));
}

#[test]
fn start_off_the_grid_is_missing() {
    let grid = maze(&["  ", "  "]);
    assert!(matches!(grid.solve_maze(&at(2, 0), &at(0, 0)), Err(MazeError::GridIndexMissing)));
    assert!(matches!(grid.solve_maze(&at(0, 2), &at(0, 2)), Err(MazeError::GridIndexMissing)));
    assert!(matches!(grid.iter_solve(&at(5, 5), &at(0, 0)), Err(MazeError::GridIndexMissing)));
}

#[test]
fn walk_ends_on_a_grid_where_every_cell_is_a_dead_end() {
    let rows: Vec<String> = (0..20).map(|_| " ".repeat(20)).collect();
    let rows: Vec<&str> = rows.iter().map(|r| r.as_str()).collect();
    let grid = maze(&rows);
    let path = grid.solve_maze(&at(0, 0), &at(19, 19)).unwrap();
    assert_is_route(&grid, path.points(), at(0, 0), at(19, 19));
    assert!(matches!(grid.solve_maze(&at(0, 0), &at(20, 20)), Err(MazeError::NotFound)));
}

#[test]
fn visited_finds_what_the_list_holds() {
    let seen = vec![at(0, 0), at(3, 1), at(2, 2)];
    assert!(visited(&at(0, 0), &seen));
    assert!(visited(&at(3, 1), &seen));
    assert!(visited(&at(2, 2), &seen));
    assert!(!visited(&at(1, 3), &seen));
    assert!(!visited(&at(0, 1), &seen));
    assert!(!visited(&at(0, 0), &Vec::new()));
}

#[test]
fn path_grows_and_shrinks_at_its_end() {
    let mut path = Path::new();
    assert_eq!(path.points(), &[]);
    assert_eq!(path.tail(), None);
    assert_eq!(path.pop(), None);
    path.push(&at(1, 0));
    path.push(&at(1, 1));
    path.push(&at(2, 1));
    assert_eq!(path.points(), &[at(1, 0), at(1, 1), at(2, 1)]);
    assert_eq!(path.tail(), Some(at(2, 1)));
    assert_eq!(path.pop(), Some(at(2, 1)));
    assert_eq!(path.tail(), Some(at(1, 1)));
    assert_eq!(path.points(), &[at(1, 0), at(1, 1)]);
    assert_eq!(path.pop(), Some(at(1, 1)));
    assert_eq!(path.pop(), Some(at(1, 0)));
    assert_eq!(path.pop(), None);
    assert_eq!(path.points(), &[]);
}

#[test]
fn path_prints_its_coordinates_on_one_line() {
    let mut path = Path::new();
    assert_eq!(path.print(), "\n");
    path.push(&at(0, 1));
    assert_eq!(path.print(), "Point { x: 0, y: 1 } \n");
    path.push(&at(10, 1));
    path.push(&at(254, 1009));
    assert_eq!(
        path.print(),
        "Point { x: 0, y: 1 } Point { x: 10, y: 1 } Point { x: 254, y: 1009 } \n"
    );
}
