use maze_walker::{parse_rendering, Dimensions, Maze, MazeError, PixelList};

fn raster(rows: &[&str]) -> Vec<u8> {
    let mut bytes = Vec::new();
    for row in rows {
        for glyph in row.chars() {
            if glyph == ' ' {
                bytes.extend_from_slice(&[255, 255, 255, 255]);
            } else {
                bytes.extend_from_slice(&[0, 0, 0, 255]);
            }
        }
    }
    bytes
}

fn maze(rows: &[&str]) -> Maze {
    let dimensions = Dimensions { width: rows[0].len() as u32, height: rows.len() as u32 };
    let list = PixelList::new(&raster(rows), dimensions).unwrap();
    Maze::new(dimensions, &list).unwrap()
}

#[test]
fn rendering_is_one_line_for_each_row() {
    let grid = maze(&["***", "   ", "***"]);
    assert_eq!(grid.print_maze().unwrap(), "***\n   \n***\n");
    let grid = maze(&["* **", "    ", "** *"]);
    assert_eq!(grid.print_maze().unwrap(), "* **\n    \n** *\n");
}

#[test]
fn rendering_goes_by_colour_not_alpha() {
    let bytes = [0, 0, 0, 255, 0, 0, 1, 0, 0, 0, 0, 0, 9, 9, 9, 9];
    let dimensions = Dimensions { width: 2, height: 2 };
    let list = PixelList::new(&bytes, dimensions).unwrap();
    let grid = Maze::new(dimensions, &list).unwrap();
    assert_eq!(grid.print_maze().unwrap(), "* \n* \n");
}

#[test]
fn rendering_of_an_empty_grid() {
    for (width, height, text) in [(0, 0, ""), (0, 3, "\n\n\n"), (3, 0, "")] {
        let dimensions = Dimensions { width, height };
        let list = PixelList::new(&[], dimensions).unwrap();
        let grid = Maze::new(dimensions, &list).unwrap();
        assert_eq!(grid.print_maze().unwrap(), text);
    }
}

#[test]
fn reading_back_gives_a_flag_for_each_glyph() {
    assert_eq!(parse_rendering(" *\n* \n"), Ok(vec![true, false, false, true]));
    assert_eq!(parse_rendering(""), Ok(vec![]));
    assert_eq!(parse_rendering("\n\n"), Ok(vec![]));
    assert_eq!(parse_rendering("   "), Ok(vec![true, true, true]));
    assert_eq!(parse_rendering("**"), Ok(vec![false, false]));
}

#[test]
fn reading_back_refuses_other_glyphs() {
    assert_eq!(parse_rendering(" *x\n"), Err(MazeError::MalformedInput));
    assert_eq!(parse_rendering("#"), Err(MazeError::MalformedInput));
    assert_eq!(parse_rendering(" *\r\n"), Err(MazeError::MalformedInput));
    assert_eq!(parse_rendering("\t"), Err(MazeError::MalformedInput));
    assert_eq!(parse_rendering(" *\u{e9}"), Err(MazeError::MalformedInput));
    assert_eq!(parse_rendering("\u{2a2a}"), Err(MazeError::MalformedInput));
}

#[test]
fn rendering_round_trip() {
    let grids: [&[&str]; 5] = [
        &["***", "   ", "***"],
        &["* **", "    ", "** *"],
        &[" "],
        &["*"],
        &["* *****", "*   ***", "* *****", "*     *", "***** *"],
    ];
    for rows in grids {
        let grid = maze(rows);
        let text = grid.print_maze().unwrap();
        let flags = parse_rendering(&text).unwrap();
        let expected: Vec<bool> = rows.iter().flat_map(|row| row.chars().map(|g| g == ' ')).collect();
        assert_eq!(flags, expected);
        let mut from_nodes = Vec::new();
        for y in 0..rows.len() {
            for x in 0..rows[0].len() {
                from_nodes.push(grid.node_at(&maze_walker::Point { x, y }).unwrap().is_passable());
            }
        }
        assert_eq!(flags, from_nodes);
    }
}
