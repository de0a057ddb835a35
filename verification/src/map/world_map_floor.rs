//! Floors written as text: one two-character token per cell, one line per row.
use vstd::prelude::*;

use crate::map::world_map::{
    parse_cell_token, reads_as, CellType,
};
use crate::text::{
    chars_of, find_line_end, find_skip_space, find_trim_end, line_end, skip_space, trim_end,
};

verus! {

/// Most cells that a floor may hold.
pub const MAX_FLOOR_CELLS: usize = 0x7fff_ffff;

/// Why a text is no floor.
#[derive(Debug, Clone, Copy, PartialEq, Eq, Structural)]
pub enum MapParseError {
    /// No line holds a cell.
    Empty,
    /// More cells than [`MAX_FLOOR_CELLS`].
    TooLarge,
    /// A row that is not as long as the first one, or ends inside a token.
    UnevenRow { row: usize },
    /// A token that stands for no cell.
    UnknownToken { row: usize, column: usize },
}

/// Where a text marks the ends of a path, as (column, row).
#[derive(Debug, Clone, Copy, PartialEq, Eq)]
pub struct PathMarkers {
    pub path_a: Option<(usize, usize)>,
    pub path_b: Option<(usize, usize)>,
}

/// A rectangle of cells.
#[derive(Debug)]
pub struct WorldMapFloor {
    rows: Vec<Vec<CellType>>,
    width: usize,
}

/// The lines of `s[from..]` that are not blank, without the white space around them.
pub open spec fn text_rows(s: Seq<char>, from: int) -> Seq<Seq<char>>
    decreases s.len() + 1 - from,
{
    let end = line_end(s, from);
    let a = skip_space(s, from, end);
    let b = trim_end(s, a, end);
    if from > s.len() || end < from || end >= s.len() {
        if a < b && from <= s.len() {
            seq![s.subrange(a, b)]
        } else {
            seq![]
        }
    } else if a < b {
        seq![s.subrange(a, b)] + text_rows(s, end + 1)
    } else {
        text_rows(s, end + 1)
    }
}

/// Whether the token `ab` marks the end `mark` of a path.
pub open spec fn is_marker(a: char, b: char, mark: char) -> bool {
    a == '>' && b == mark
}

/// Whether the token `ab` stands for `cell`; a path marker stands on road.
pub open spec fn stands_for(a: char, b: char, markers: bool, cell: CellType) -> bool {
    reads_as(a, b, cell) || markers && cell is Road && (is_marker(a, b, 'A') || is_marker(
        a,
        b,
        'B',
    ))
}

/// Whether the token `ab` stands for some cell.
pub open spec fn is_token(a: char, b: char, markers: bool) -> bool {
    exists|cell: CellType| stands_for(a, b, markers, cell)
}

/// Whether the row is as long as the first one and made of whole tokens.
pub open spec fn even_row(rows: Seq<Seq<char>>, y: int) -> bool {
    rows[y].len() == rows[0].len() && rows[y].len() % 2 == 0
}

/// Whether the first `n` tokens of row `y` stand for cells.
pub open spec fn good_tokens(rows: Seq<Seq<char>>, markers: bool, y: int, n: int) -> bool {
    forall|x: int|
        0 <= x < n ==> is_token(rows[y][2 * x], #[trigger] rows[y][2 * x + 1], markers)
}

/// Whether the first `n` rows are even and made of tokens that stand for cells.
pub open spec fn good_rows(rows: Seq<Seq<char>>, markers: bool, n: int) -> bool {
    forall|y: int|
        0 <= y < n ==> #[trigger] even_row(rows, y) && good_tokens(
            rows,
            markers,
            y,
            rows[y].len() as int / 2,
        )
}

/// Whether the rows hold at most [`MAX_FLOOR_CELLS`] cells.
pub open spec fn fits(rows: Seq<Seq<char>>) -> bool {
    rows.len() * (rows[0].len() / 2) <= MAX_FLOOR_CELLS
}

/// Whether column `x` of row `y` holds the marker.
pub open spec fn marked(rows: Seq<Seq<char>>, mark: char, x: int, y: int) -> bool {
    &&& 0 <= y < rows.len()
    &&& 0 <= x < rows[y].len() / 2
    &&& is_marker(rows[y][2 * x], rows[y][2 * x + 1], mark)
}

/// Whether (x, y) comes before (u, v) when rows are read one after the other.
pub open spec fn read_before(x: int, y: int, u: int, v: int) -> bool {
    y < v || y == v && x < u
}

/// Whether `at` is the first place that holds the marker.
pub open spec fn first_mark(rows: Seq<Seq<char>>, mark: char, at: Option<(usize, usize)>) -> bool {
    match at {
        Some((x, y)) => marked(rows, mark, x as int, y as int) && forall|u: int, v: int| #[trigger]
            marked(rows, mark, u, v) ==> !read_before(u, v, x as int, y as int),
        None => forall|u: int, v: int| !#[trigger] marked(rows, mark, u, v),
    }
}

/// First place that holds the marker among those read before (x, y).
spec fn first_mark_before(
    rows: Seq<Seq<char>>,
    mark: char,
    at: Option<(usize, usize)>,
    x: int,
    y: int,
) -> bool {
    match at {
        Some((p, q)) => read_before(p as int, q as int, x, y) && first_mark(rows, mark, at),
        None => forall|u: int, v: int| #[trigger]
            marked(rows, mark, u, v) ==> !read_before(u, v, x, y),
    }
}

/// Which error a text gives, if it gives one.
pub open spec fn parse_fails(rows: Seq<Seq<char>>, markers: bool, err: MapParseError) -> bool {
    match err {
        MapParseError::Empty => rows.len() == 0,
        MapParseError::TooLarge => rows.len() > 0 && !fits(rows),
        MapParseError::UnevenRow { row } => row < rows.len() && fits(rows) && good_rows(
            rows,
            markers,
            row as int,
        ) && !even_row(rows, row as int),
        MapParseError::UnknownToken { row, column } => row < rows.len() && fits(rows)
            && good_rows(rows, markers, row as int) && even_row(rows, row as int) && column
            < rows[row as int].len() / 2 && good_tokens(rows, markers, row as int, column as int)
            && !is_token(
            rows[row as int][2 * column],
            rows[row as int][2 * column + 1],
            markers,
        ),
    }
}

/// A text gives no two errors, and none if all of it can be read.
pub proof fn parse_errors_are_exclusive(
    rows: Seq<Seq<char>>,
    markers: bool,
    a: MapParseError,
    b: MapParseError,
)
    requires
        parse_fails(rows, markers, a),
    ensures
        rows.len() > 0 && fits(rows) ==> !good_rows(rows, markers, rows.len() as int),
        parse_fails(rows, markers, b) ==> a == b,
{
    let row_a = match a {
        MapParseError::UnevenRow { row } => row as int,
        MapParseError::UnknownToken { row, column } => row as int,
        _ => 0,
    };
    let row_b = match b {
        MapParseError::UnevenRow { row } => row as int,
        MapParseError::UnknownToken { row, column } => row as int,
        _ => 0,
    };
    assert(rows.len() > 0 ==> (even_row(rows, row_a) || !even_row(rows, row_a)));
    assert(rows.len() > 0 ==> (even_row(rows, row_b) || !even_row(rows, row_b)));
    if let MapParseError::UnknownToken { row, column } = a {
        assert(!is_token(
            rows[row as int][2 * column],
            rows[row as int][2 * column + 1],
            markers,
        ));
    }
    if let MapParseError::UnknownToken { row, column } = b {
        if parse_fails(rows, markers, b) {
            assert(!is_token(
                rows[row as int][2 * column],
                rows[row as int][2 * column + 1],
                markers,
            ));
        }
    }
}

fn read_rows(s: &Vec<char>) -> (out: Vec<Vec<char>>)
    ensures
        out@.len() == text_rows(s@, 0).len(),
        forall|i: int| 0 <= i < out@.len() ==> #[trigger] out@[i]@ == text_rows(s@, 0)[i],
        forall|i: int| 0 <= i < out@.len() ==> #[trigger] out@[i]@.len() > 0,
{
    let mut out: Vec<Vec<char>> = Vec::new();
    let mut from: usize = 0;
    let ghost all = text_rows(s@, 0);
    loop
        invariant_except_break
            from <= s@.len(),
            all == text_rows(s@, 0),
            out@.len() <= all.len(),
            all.skip(out@.len() as int) == text_rows(s@, from as int),
            forall|i: int| 0 <= i < out@.len() ==> #[trigger] out@[i]@ == all[i],
            forall|i: int| 0 <= i < out@.len() ==> #[trigger] out@[i]@.len() > 0,
        ensures
            all == text_rows(s@, 0),
            out@.len() == all.len(),
            forall|i: int| 0 <= i < out@.len() ==> #[trigger] out@[i]@ == all[i],
            forall|i: int| 0 <= i < out@.len() ==> #[trigger] out@[i]@.len() > 0,
        decreases s@.len() + 1 - from,
    {
        let end: usize = find_line_end(s, from);
        let a: usize = find_skip_space(s, from, end);
        let b: usize = find_trim_end(s, a, end);
        let ghost rest = text_rows(s@, from as int);
        if a < b {
            let mut row: Vec<char> = Vec::new();
            let mut i: usize = a;
            while i < b
                invariant
                    a <= i <= b <= s@.len(),
                    row@ == s@.subrange(a as int, i as int),
                decreases b - i,
            {
                row.push(s[i]);
                i += 1;
                assert(row@ =~= s@.subrange(a as int, i as int));
            }
            proof {
                assert(rest.len() > 0 && rest[0] == row@);
                assert(all.skip(out@.len() as int)[0] == all[out@.len() as int]);
                assert(all.skip(out@.len() as int + 1) =~= rest.skip(1));
                if end < s@.len() {
                    assert(rest.skip(1) =~= text_rows(s@, end + 1));
                } else {
                    assert(rest.len() == 1);
                }
            }
            out.push(row);
        }
        if end >= s.len() {
            assert(all.skip(out@.len() as int).len() == 0);
            break;
        }
        from = end + 1;
    }
    out
}

fn within_limit(rows: usize, columns: usize) -> (within: bool)
    ensures
        within == (rows * columns <= MAX_FLOOR_CELLS),
{
    match rows.checked_mul(columns) {
        Some(n) => n <= MAX_FLOOR_CELLS,
        None => false,
    }
}

fn read_token(a: char, b: char, markers: bool) -> (cell: Option<CellType>)
    ensures
        match cell {
            Some(c) => stands_for(a, b, markers, c),
            None => !is_token(a, b, markers),
        },
{
    if markers && a == '>' && (b == 'A' || b == 'B') {
        return Some(CellType::Road);
    }
    parse_cell_token(a, b)
}

impl WorldMapFloor {
    /// Number of columns.
    pub closed spec fn columns(self) -> int {
        self.width as int
    }

    /// Number of rows.
    pub closed spec fn lines(self) -> int {
        self.rows@.len() as int
    }

    /// The cell at (x, y).
    pub closed spec fn cell(self, x: int, y: int) -> CellType {
        self.rows@[y]@[x]
    }

    /// The floor has a cell, and no more than a floor may hold.
    pub open spec fn wf(self) -> bool {
        &&& self.shaped()
        &&& 0 < self.columns()
        &&& 0 < self.lines()
        &&& self.columns() * self.lines() <= MAX_FLOOR_CELLS
    }

    /// Every row has a cell in every column.
    pub closed spec fn shaped(self) -> bool {
        forall|y: int| 0 <= y < self.rows@.len() ==> #[trigger] self.rows@[y]@.len() == self.width
    }

    /// Whether every cell is the one that its token in `rows` stands for.
    pub open spec fn shows(self, rows: Seq<Seq<char>>, markers: bool) -> bool {
        &&& self.lines() == rows.len()
        &&& self.columns() == rows[0].len() / 2
        &&& forall|x: int, y: int|
            0 <= x < self.columns() && 0 <= y < self.lines() ==> stands_for(
                rows[y][2 * x],
                rows[y][2 * x + 1],
                markers,
                #[trigger] self.cell(x, y),
            )
    }

    /// Number of columns.
    pub fn width(&self) -> (n: usize)
        ensures
            n == self.columns(),
    {
        self.width
    }

    /// Number of rows.
    pub fn height(&self) -> (n: usize)
        ensures
            n == self.lines(),
    {
        self.rows.len()
    }

    /// The cell at (x, y), if the floor reaches that far.
    pub fn get(&self, x: usize, y: usize) -> (cell: Option<CellType>)
        requires
            self.wf(),
        ensures
            cell == (if x < self.columns() && y < self.lines() {
                Some(self.cell(x as int, y as int))
            } else {
                None
            }),
    {
        if y < self.rows.len() && x < self.width {
            assert(self.rows@[y as int]@.len() == self.width);
            Some(self.rows[y][x])
        } else {
            None
        }
    }

    fn parse(ascii: &str, markers: bool) -> (floor: Result<(WorldMapFloor, PathMarkers), MapParseError>)
        ensures
            match floor {
                Ok((floor, marks)) => {
                    let rows = text_rows(ascii@, 0);
                    &&& rows.len() > 0
                    &&& fits(rows)
                    &&& good_rows(rows, markers, rows.len() as int)
                    &&& floor.wf()
                    &&& floor.shows(rows, markers)
                    &&& first_mark(rows, 'A', marks.path_a)
                    &&& first_mark(rows, 'B', marks.path_b)
                },
                Err(err) => parse_fails(text_rows(ascii@, 0), markers, err),
            },
    {
        let chars = chars_of(ascii);
        let text = read_rows(&chars);
        let ghost rows = text_rows(ascii@, 0);
        if text.len() == 0 {
            return Err(MapParseError::Empty);
        }
        let width: usize = text[0].len() / 2;
        assert(text@[0]@ == rows[0]);
        if !within_limit(text.len(), width) {
            return Err(MapParseError::TooLarge);
        }
        let mut cells: Vec<Vec<CellType>> = Vec::new();
        let mut marks = PathMarkers { path_a: None, path_b: None };
        let mut y: usize = 0;
        while y < text.len()
            invariant
                rows == text_rows(ascii@, 0),
                rows.len() == text@.len(),
                rows.len() > 0,
                fits(rows),
                width == rows[0].len() / 2,
                y <= text@.len(),
                forall|i: int| 0 <= i < text@.len() ==> #[trigger] text@[i]@ == rows[i],
                good_rows(rows, markers, y as int),
                cells@.len() == y,
                forall|j: int| 0 <= j < y ==> #[trigger] cells@[j]@.len() == width,
                forall|i: int, j: int|
                    0 <= i < width && 0 <= j < y ==> stands_for(
                        rows[j][2 * i],
                        rows[j][2 * i + 1],
                        markers,
                        #[trigger] cells@[j]@[i],
                    ),
                first_mark_before(rows, 'A', marks.path_a, 0, y as int),
                first_mark_before(rows, 'B', marks.path_b, 0, y as int),
            decreases text@.len() - y,
        {
            let line: &Vec<char> = &text[y];
            let length: usize = line.len();
            assert(line@ == rows[y as int]);
            assert(text@[0]@ == rows[0]);
            if line.len() != text[0].len() || line.len() % 2 != 0 {
                return Err(MapParseError::UnevenRow { row: y });
            }
            assert(even_row(rows, y as int));
            let mut row: Vec<CellType> = Vec::new();
            let mut x: usize = 0;
            while x < width
                invariant
                    rows.len() == text@.len(),
                    rows.len() > 0,
                    fits(rows),
                    width == rows[0].len() / 2,
                    y < text@.len(),
                    x <= width,
                    line@ == rows[y as int],
                    line@.len() == length,
                    length == 2 * width,
                    even_row(rows, y as int),
                    rows == text_rows(ascii@, 0),
                    good_rows(rows, markers, y as int),
                    good_tokens(rows, markers, y as int, x as int),
                    row@.len() == x,
                    forall|i: int|
                        0 <= i < x ==> stands_for(
                            rows[y as int][2 * i],
                            rows[y as int][2 * i + 1],
                            markers,
                            #[trigger] row@[i],
                        ),
                    first_mark_before(rows, 'A', marks.path_a, x as int, y as int),
                    first_mark_before(rows, 'B', marks.path_b, x as int, y as int),
                decreases width - x,
            {
                let a: char = line[2 * x];
                let b: char = line[2 * x + 1];
                match read_token(a, b, markers) {
                    Some(cell) => row.push(cell),
                    None => {
                        return Err(MapParseError::UnknownToken { row: y, column: x });
                    },
                }
                let ghost before = marks;
                if a == '>' && b == 'A' && marks.path_a.is_none() {
                    marks.path_a = Some((x, y));
                }
                if a == '>' && b == 'B' && marks.path_b.is_none() {
                    marks.path_b = Some((x, y));
                }
                proof {
                    Self::lemma_next_mark(rows, 'A', before.path_a, marks.path_a, x, y);
                    Self::lemma_next_mark(rows, 'B', before.path_b, marks.path_b, x, y);
                    assert forall|i: int| 0 <= i < x + 1 implies is_token(
                        rows[y as int][2 * i],
                        #[trigger] rows[y as int][2 * i + 1],
                        markers,
                    ) by {
                        if i == x {
                            assert(stands_for(a, b, markers, row@[x as int]));
                        }
                    }
                }
                x += 1;
            }
            proof {
                Self::lemma_row_done(rows, 'A', marks.path_a, x as int, y as int);
                Self::lemma_row_done(rows, 'B', marks.path_b, x as int, y as int);
            }
            cells.push(row);
            y += 1;
        }
        let floor = WorldMapFloor { rows: cells, width };
        proof {
            assert(floor.columns() * floor.lines() <= MAX_FLOOR_CELLS) by (nonlinear_arith)
                requires
                    fits(rows),
                    floor.columns() == rows[0].len() / 2,
                    floor.lines() == rows.len(),
            ;
            assert(even_row(rows, 0));
            assert(text@[0]@ == rows[0]);
            assert(first_mark(rows, 'A', marks.path_a));
        }
        Ok((floor, marks))
    }

    proof fn lemma_next_mark(
        rows: Seq<Seq<char>>,
        mark: char,
        before: Option<(usize, usize)>,
        after: Option<(usize, usize)>,
        x: usize,
        y: usize,
    )
        requires
            y < rows.len(),
            x < rows[y as int].len() / 2,
            first_mark_before(rows, mark, before, x as int, y as int),
            after == (if is_marker(rows[y as int][2 * x], rows[y as int][2 * x + 1], mark)
                && before is None {
                Some((x, y))
            } else {
                before
            }),
        ensures
            first_mark_before(rows, mark, after, x + 1, y as int),
    {
        if after is None {
            assert forall|u: int, v: int| #[trigger] marked(rows, mark, u, v) implies !read_before(
                u,
                v,
                x + 1,
                y as int,
            ) by {
                if u == x && v == y {
                }
            }
        } else if before is None {
            assert(marked(rows, mark, x as int, y as int));
        }
    }

    proof fn lemma_row_done(
        rows: Seq<Seq<char>>,
        mark: char,
        at: Option<(usize, usize)>,
        x: int,
        y: int,
    )
        requires
            0 <= y < rows.len(),
            x == rows[y].len() / 2,
            first_mark_before(rows, mark, at, x, y),
        ensures
            first_mark_before(rows, mark, at, 0, y + 1),
    {
    }

    /// Reads a floor.
    pub fn from_ascii(ascii: &str) -> (floor: Result<WorldMapFloor, MapParseError>)
        ensures
            match floor {
                Ok(floor) => {
                    let rows = text_rows(ascii@, 0);
                    &&& rows.len() > 0
                    &&& fits(rows)
                    &&& good_rows(rows, false, rows.len() as int)
                    &&& floor.wf()
                    &&& floor.shows(rows, false)
                },
                Err(err) => parse_fails(text_rows(ascii@, 0), false, err),
            },
    {
        match WorldMapFloor::parse(ascii, false) {
            Ok((floor, _)) => Ok(floor),
            Err(err) => Err(err),
        }
    }

    /// Reads a floor on which `>A` and `>B` mark road cells as the ends of a path.
    pub fn from_ascii_with_path_markers(ascii: &str) -> (floor: Result<
        (WorldMapFloor, PathMarkers),
        MapParseError,
    >)
        ensures
            match floor {
                Ok((floor, marks)) => {
                    let rows = text_rows(ascii@, 0);
                    &&& rows.len() > 0
                    &&& fits(rows)
                    &&& good_rows(rows, true, rows.len() as int)
                    &&& floor.wf()
                    &&& floor.shows(rows, true)
                    &&& first_mark(rows, 'A', marks.path_a)
                    &&& first_mark(rows, 'B', marks.path_b)
                },
                Err(err) => parse_fails(text_rows(ascii@, 0), true, err),
            },
    {
        WorldMapFloor::parse(ascii, true)
    }
}

} // verus!
