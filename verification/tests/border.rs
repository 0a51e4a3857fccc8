use maze_walker::{Dimensions, Maze, MazeError, PixelList, Point};

fn raster(rows: &[&str]) -> Vec<u8> {
    let mut bytes = Vec::new();
    for row in rows {
        for glyph in row.chars() {
            if glyph == ' ' {
                bytes.extend_from_slice(&[255, 255, 255, 255]);
            } else {
                bytes.extend_from_slice(&[0, 0, 0, 255]);
            }
        }
    }
    bytes
}

fn maze(rows: &[&str]) -> Maze {
    let dimensions = Dimensions { width: rows[0].len() as u32, height: rows.len() as u32 };
    let list = PixelList::new(&raster(rows), dimensions).unwrap();
    Maze::new(dimensions, &list).unwrap()
}

fn at(x: usize, y: usize) -> Point {
    Point { x, y }
}

#[test]
fn scan_finds_the_two_ends_of_a_corridor() {
    let grid = maze(&["***", "   ", "***"]);
    let openings = grid.find_start().unwrap();
    assert_eq!(openings.points(), &[at(0, 1), at(2, 1)]);
    assert_eq!(openings.get_start(), at(0, 1));
    assert_eq!(openings.get_end(), at(2, 1));
}

#[test]
fn scan_goes_top_bottom_left_right() {
    let grid = maze(&["* * *", "     ", "* * *", "     ", "** **"]);
    let openings = grid.find_start().unwrap();
    assert_eq!(
        openings.points(),
        &[at(1, 0), at(3, 0), at(2, 4), at(0, 1), at(0, 3), at(4, 1), at(4, 3)]
    );
    assert_eq!(openings.get_start(), at(1, 0));
    assert_eq!(openings.get_end(), at(4, 3));
}

#[test]
fn scan_lists_a_corner_twice() {
    let grid = maze(&["  ", "  "]);
    let openings = grid.find_start().unwrap();
    assert_eq!(
        openings.points(),
        &[at(0, 0), at(1, 0), at(0, 1), at(1, 1), at(0, 0), at(0, 1), at(1, 0), at(1, 1)]
    );
    for corner in [at(0, 0), at(1, 0), at(0, 1), at(1, 1)] {
        assert_eq!(openings.points().iter().filter(|p| **p == corner).count(), 2);
    }
}

#[test]
fn scan_lists_corners_twice_and_edges_once() {
    let grid = maze(&["   ", "   ", "   "]);
    let openings = grid.find_start().unwrap();
    assert_eq!(openings.points().len(), 12);
    for y in 0..3 {
        for x in 0..3 {
            let times = openings.points().iter().filter(|p| **p == at(x, y)).count();
            let on_rows = (y == 0) as usize + (y == 2) as usize;
            let on_columns = (x == 0) as usize + (x == 2) as usize;
            assert_eq!(times, on_rows + on_columns);
        }
    }
    assert_eq!(openings.points().iter().filter(|p| **p == at(1, 1)).count(), 0);
    assert_eq!(openings.points().iter().filter(|p| **p == at(2, 0)).count(), 2);
    assert_eq!(openings.points().iter().filter(|p| **p == at(1, 0)).count(), 1);
}

#[test]
fn scan_is_the_same_every_time() {
    let rows = ["* * *", "     ", "* * *", "     ", "** **"];
    let first = maze(&rows).find_start().unwrap();
    let grid = maze(&rows);
    for _ in 0..3 {
        let again = grid.find_start().unwrap();
        assert_eq!(again.points(), first.points());
    }
}

#[test]
fn scan_of_a_single_passable_corner_gives_it_as_start_and_end() {
    let grid = maze(&[" **", "***", "***"]);
    let openings = grid.find_start().unwrap();
    assert_eq!(openings.points(), &[at(0, 0), at(0, 0)]);
    assert_eq!(openings.get_start(), openings.get_end());
}

#[test]
fn scan_of_a_grid_of_one_cell_meets_it_four_times() {
    let grid = maze(&[" "]);
    let openings = grid.find_start().unwrap();
    assert_eq!(openings.points(), &[at(0, 0), at(0, 0), at(0, 0), at(0, 0)]);
    assert_eq!(openings.get_start(), at(0, 0));
    assert_eq!(openings.get_end(), at(0, 0));
}

#[test]
fn scan_of_a_single_row_meets_each_cell_on_both_rows() {
    let grid = maze(&[" * "]);
    let openings = grid.find_start().unwrap();
    assert_eq!(openings.points(), &[at(0, 0), at(2, 0), at(0, 0), at(2, 0), at(0, 0), at(2, 0)]);
}

#[test]
fn scan_ignores_openings_inside() {
    let grid = maze(&["****", "*  *", "*  *", "****"]);
    assert!(matches!(grid.find_start(), Err(MazeError::InsufficientEntrances)));
}

#[test]
fn scan_refuses_a_border_without_openings() {
    let grid = maze(&["***", "***", "***"]);
    assert!(matches!(grid.find_start(), Err(MazeError::InsufficientEntrances)));
}

#[test]
fn scan_refuses_a_border_with_one_opening() {
    let grid = maze(&["* *", "* *", "***"]);
    assert!(matches!(grid.find_start(), Err(MazeError::InsufficientEntrances)));
    let grid = maze(&["***", "  *", "***"]);
    assert!(matches!(grid.find_start(), Err(MazeError::InsufficientEntrances)));
}

#[test]
fn scan_refuses_an_empty_grid() {
    for (width, height) in [(0, 0), (0, 4), (4, 0)] {
        let dimensions = Dimensions { width, height };
        let list = PixelList::new(&[], dimensions).unwrap();
        let grid = Maze::new(dimensions, &list).unwrap();
        assert!(matches!(grid.find_start(), Err(MazeError::InsufficientEntrances)));
    }
}
