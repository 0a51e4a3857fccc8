//! The grid as text, and the text back as passability flags.

use crate::dimensions::Dimensions;
use crate::error::MazeError;
use crate::maze::Maze;
use crate::node::MazeNode;
use crate::point::Point;
use vstd::prelude::*;
use vstd::string::is_ascii_spec_bytes;

verus! {

/// The glyph of a cell that can be walked on.
pub const PASSABLE_GLYPH: char = ' ';

/// The glyph of a blocked cell.
pub const BLOCKED_GLYPH: char = '*';

/// What ends a row of the rendering.
pub const ROW_END: char = '\n';

/// The glyph that stands for a node.
pub open spec fn glyph(node: MazeNode) -> char {
    if node.is_passable() {
        PASSABLE_GLYPH
    } else {
        BLOCKED_GLYPH
    }
}

/// The glyphs of row `y`, from left to right.
pub open spec fn row_text(nodes: Map<Point, MazeNode>, dimensions: Dimensions, y: int) -> Seq<char> {
    Seq::new(dimensions.width as nat, |x: int| glyph(nodes[Point { y: y as usize, x: x as usize }]))
}

/// The first `n` rows as text, each closed by a row end.
pub open spec fn rows_text(nodes: Map<Point, MazeNode>, dimensions: Dimensions, n: nat) -> Seq<char>
    decreases n,
{
    if n == 0 {
        Seq::empty()
    } else {
        rows_text(nodes, dimensions, (n - 1) as nat) + row_text(nodes, dimensions, n - 1).push(
            ROW_END,
        )
    }
}

/// The grid as text: row by row, one glyph for each cell, a row end after
/// each row.
pub open spec fn rendering(nodes: Map<Point, MazeNode>, dimensions: Dimensions) -> Seq<char> {
    rows_text(nodes, dimensions, dimensions.height as nat)
}

/// Whether each cell of the grid can be walked on, in row-major order.
pub open spec fn passability(nodes: Map<Point, MazeNode>, dimensions: Dimensions) -> Seq<bool> {
    Seq::new(
        dimensions.cell_count() as nat,
        |i: int| nodes[dimensions.point_at(i)].is_passable(),
    )
}

/// The flags that a text of glyphs stands for, in the order of the glyphs;
/// row ends stand for nothing. A text that holds anything else stands for no
/// flags.
pub open spec fn parsed_flags(text: Seq<char>) -> Option<Seq<bool>>
    decreases text.len(),
{
    if text.len() == 0 {
        Some(Seq::empty())
    } else {
        match parsed_flags(text.drop_last()) {
            Some(flags) => if text.last() == PASSABLE_GLYPH {
                Some(flags.push(true))
            } else if text.last() == BLOCKED_GLYPH {
                Some(flags.push(false))
            } else if text.last() == ROW_END {
                Some(flags)
            } else {
                None
            },
            None => None,
        }
    }
}

/// Two texts laid end to end stand for the flags of the first followed by
/// the flags of the second, if each of them stands for flags at all.
proof fn lemma_parsed_add(a: Seq<char>, b: Seq<char>)
    ensures
        parsed_flags(a + b) == match (parsed_flags(a), parsed_flags(b)) {
            (Some(x), Some(y)) => Some(x + y),
            _ => None,
        },
    decreases b.len(),
{
    if b.len() == 0 {
        assert(a + b =~= a);
    } else {
        assert((a + b).drop_last() =~= a + b.drop_last());
        lemma_parsed_add(a, b.drop_last());
        if let (Some(x), Some(y)) = (parsed_flags(a), parsed_flags(b.drop_last())) {
            assert((x + y).push(true) =~= x + y.push(true));
            assert((x + y).push(false) =~= x + y.push(false));
        }
    }
}

/// A text that begins with what stands for no flags stands for none itself.
proof fn lemma_parsed_prefix(text: Seq<char>, n: int)
    requires
        0 <= n <= text.len(),
        parsed_flags(text.take(n)) is None,
    ensures
        parsed_flags(text) is None,
{
    assert(text =~= text.take(n) + text.skip(n));
    lemma_parsed_add(text.take(n), text.skip(n));
}

/// A text that stands for flags holds only characters of the first 128.
proof fn lemma_parsed_is_ascii(text: Seq<char>)
    requires
        parsed_flags(text) is Some,
    ensures
        vstd::utf8::is_ascii_chars(text),
    decreases text.len(),
{
    if text.len() > 0 {
        lemma_parsed_is_ascii(text.drop_last());
        assert forall|i: int| 0 <= i < text.len() implies '\0' <= #[trigger] text[i] <= '\u{7f}' by {
            if i < text.len() - 1 {
                assert(text.drop_last()[i] == text[i]);
            }
        }
    }
}

/// The first `n` glyphs of row `y` stand for the flags of the first `n`
/// cells of the row.
proof fn lemma_parsed_row(nodes: Map<Point, MazeNode>, dimensions: Dimensions, y: int, n: int)
    requires
        0 <= n <= dimensions.width,
    ensures
        parsed_flags(row_text(nodes, dimensions, y).take(n)) == Some(
            Seq::new(n as nat, |x: int| nodes[Point { y: y as usize, x: x as usize }].is_passable()),
        ),
    decreases n,
{
    let row = row_text(nodes, dimensions, y);
    let flags = Seq::new(
        n as nat,
        |x: int| nodes[Point { y: y as usize, x: x as usize }].is_passable(),
    );
    if n == 0 {
        assert(flags =~= Seq::<bool>::empty());
    } else {
        lemma_parsed_row(nodes, dimensions, y, n - 1);
        assert(row.take(n).drop_last() =~= row.take(n - 1));
        let before = Seq::new(
            (n - 1) as nat,
            |x: int| nodes[Point { y: y as usize, x: x as usize }].is_passable(),
        );
        assert(flags =~= before.push(nodes[Point { y: y as usize, x: (n - 1) as usize }].is_passable()));
    }
}

/// The first `n` rows of the rendering stand for the flags of the cells of
/// those rows.
proof fn lemma_parsed_rows(nodes: Map<Point, MazeNode>, dimensions: Dimensions, n: nat)
    requires
        n <= dimensions.height,
    ensures
        n * dimensions.width <= dimensions.cell_count(),
        parsed_flags(rows_text(nodes, dimensions, n)) == Some(
            passability(nodes, dimensions).take(n * dimensions.width),
        ),
    decreases n,
{
    let w = dimensions.width as int;
    let h = dimensions.height as int;
    let all = passability(nodes, dimensions);
    assert(n * w <= w * h) by (nonlinear_arith)
        requires
            0 <= n <= h,
            0 <= w,
    ;
    if n == 0 {
        assert(all.take(0) =~= Seq::<bool>::empty());
    } else {
        let y = n - 1;
        lemma_parsed_rows(nodes, dimensions, y as nat);
        let row = row_text(nodes, dimensions, y);
        lemma_parsed_row(nodes, dimensions, y, w);
        assert(row.take(w) =~= row);
        assert(row.push(ROW_END).drop_last() =~= row);
        lemma_parsed_add(rows_text(nodes, dimensions, y as nat), row.push(ROW_END));
        let row_flags = Seq::new(
            w as nat,
            |x: int| nodes[Point { y: y as usize, x: x as usize }].is_passable(),
        );
        assert(n * w == y * w + w) by (nonlinear_arith)
            requires
                n == y + 1,
        ;
        assert(all.take(y * w) + row_flags =~= all.take(n * w)) by {
            assert forall|i: int| 0 <= i < w implies row_flags[i] == all[y * w + i] by {
                let p = Point { y: y as usize, x: i as usize };
                dimensions.lemma_point_at_index(p);
            }
        }
    }
}

/// Rendering a grid and reading the rendering back gives the passability
/// of its cells, in row-major order.
pub proof fn lemma_rendering_round_trip(nodes: Map<Point, MazeNode>, dimensions: Dimensions)
    ensures
        parsed_flags(rendering(nodes, dimensions)) == Some(passability(nodes, dimensions)),
{
    lemma_parsed_rows(nodes, dimensions, dimensions.height as nat);
    let all = passability(nodes, dimensions);
    assert(dimensions.height * dimensions.width == dimensions.cell_count()) by (nonlinear_arith);
    assert(all.take(all.len() as int) =~= all);
}

impl Maze {
    /// The grid as text: row by row, a space for a cell that can be walked
    /// on and an asterisk for a blocked one, a line feed after each row.
    pub fn print_maze(&self) -> (r: Result<String, MazeError>)
        ensures
            match r {
                Ok(text) => text@ == rendering(self@, self.spec_dimensions()),
                Err(_) => false,
            },
    {
        proof {
            use_type_invariant(self);
        }
        let width: usize = self.dimensions().width as usize;
        let height: usize = self.dimensions().height as usize;
        let ghost nodes = self@;
        let ghost dimensions = self.spec_dimensions();
        let mut text = String::new();
        let mut y: usize = 0;
        while y < height
            invariant
                0 <= y <= height,
                self.inv(),
                nodes == self@,
                dimensions == self.spec_dimensions(),
                width == dimensions.width,
                height == dimensions.height,
                text@ == rows_text(nodes, dimensions, y as nat),
            decreases height - y,
        {
            let ghost row = row_text(nodes, dimensions, y as int);
            let ghost above = text@;
            let mut x: usize = 0;
            while x < width
                invariant
                    0 <= x <= width,
                    y < height,
                    self.inv(),
                    nodes == self@,
                    dimensions == self.spec_dimensions(),
                    width == dimensions.width,
                    height == dimensions.height,
                    row == row_text(nodes, dimensions, y as int),
                    text@ == above + row.take(x as int),
                decreases width - x,
            {
                let node = self.node_at(&Point { x, y })?;
                proof {
                    reveal_strlit(" ");
                    reveal_strlit("*");
                    assert(row.take(x + 1) =~= row.take(x as int).push(glyph(*node)));
                }
                if node.is_passable() {
                    text.append(" ");
                } else {
                    text.append("*");
                }
                x += 1;
            }
            proof {
                reveal_strlit("\n");
                assert(row.take(width as int) =~= row);
            }
            text.append("\n");
            y += 1;
        }
        Ok(text)
    }
}

/// Reads a rendering back: a flag for each glyph, in the order of the
/// glyphs, `true` for a space and `false` for an asterisk; line feeds are
/// passed over. A text that holds anything else is malformed.
pub fn parse_rendering(text: &str) -> (r: Result<Vec<bool>, MazeError>)
    ensures
        match r {
            Ok(flags) => parsed_flags(text@) == Some(flags@),
            Err(e) => e == MazeError::MalformedInput && parsed_flags(text@) is None,
        },
{
    if !text.is_ascii() {
        proof {
            if parsed_flags(text@) is Some {
                lemma_parsed_is_ascii(text@);
            }
        }
        return Err(MazeError::MalformedInput);
    }
    let bytes = text.as_bytes();
    proof {
        is_ascii_spec_bytes(text);
    }
    let mut flags: Vec<bool> = Vec::new();
    let mut i: usize = 0;
    while i < bytes.len()
        invariant
            0 <= i <= bytes@.len(),
            bytes@.len() == text@.len(),
            vstd::utf8::is_ascii_chars(text@),
            forall|j: int| 0 <= j < bytes@.len() ==> #[trigger] bytes@[j] == text@[j] as u8,
            parsed_flags(text@.take(i as int)) == Some(flags@),
        decreases bytes@.len() - i,
    {
        let byte = bytes[i];
        proof {
            assert(text@.take(i + 1).drop_last() =~= text@.take(i as int));
        }
        if byte == 0x20 {
            flags.push(true);
        } else if byte == 0x2a {
            flags.push(false);
        } else if byte != 0x0a {
            proof {
                lemma_parsed_prefix(text@, i + 1);
            }
            return Err(MazeError::MalformedInput);
        }
        i += 1;
    }
    proof {
        assert(text@.take(i as int) =~= text@);
    }
    Ok(flags)
}

} // verus!
