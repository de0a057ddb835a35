//! Level text: `levels/level_{name}/geometry/{chunk_x}_{chunk_y}.txt` and the style layers
//! beside it.
//!
//! A text holds one layer of one chunk and every vertical floor that is not blank:
//! - Sections `# floor N` where `N` is `0..=9`.
//! - After each header, exactly `HYPERMAP_CHUNK_SIZE` lines; each line has
//!   `HYPERMAP_CHUNK_SIZE` space-separated two-character tokens.
//! - Floors omitted from a geometry text are treated as all [`CellType::Void`].

use vstd::prelude::*;
use vstd::string::*;

use crate::map::hypermap::{
    floor_in_range, HypermapChunk, LocalCoord, HYPERMAP_CHUNK_SIZE, HYPERMAP_FLOOR_COUNT,
};
use crate::map::world_map::{
    cell_chars, cell_to_token, cell_tokens_are_unambiguous, parse_cell_token, parse_style_token,
    reads_as, CellType, TileStyle,
};
use crate::text::{
    chars_of, decimal, find_line_end, find_skip_space, find_tokens, find_trim_end, is_space,
    line_end, parse_int, push_decimal, read_int, skip_space, tokens, trim_end,
};

verus! {

/// A value that a layer text stores in every cell.
pub trait LayerCell: Copy {
    /// Whether the value may be stored.
    spec fn storable(self) -> bool;

    /// What a floor that the text omits holds.
    spec fn blank_value() -> Self;

    /// The two characters that stand for the value.
    spec fn token(self) -> Seq<char>;

    /// The value that a token stands for.
    spec fn from_token(token: Seq<char>) -> Option<Self>;

    /// A token has two visible characters, does not look like a header, and reads back
    /// as the value it was written for.
    proof fn token_reads_back(self)
        requires
            self.storable(),
        ensures
            self.token().len() == 2,
            !is_space(self.token()[0]),
            !is_space(self.token()[1]),
            self.token()[0] != '#',
            Self::from_token(self.token()) == Some(self),
    ;

    fn is_blank(&self) -> (blank: bool)
        ensures
            blank == (*self == Self::blank_value()),
    ;

    fn write_token(&self) -> (token: &'static str)
        ensures
            token@ == self.token(),
            self.storable(),
    ;

    fn read_token(s: &Vec<char>, from: usize, to: usize) -> (value: Option<Self>)
        requires
            from <= to <= s@.len(),
        ensures
            value == Self::from_token(s@.subrange(from as int, to as int)),
    ;
}

impl LayerCell for CellType {
    open spec fn storable(self) -> bool {
        reads_as(self.token()[0], self.token()[1], self)
    }

    open spec fn blank_value() -> Self {
        CellType::Void
    }

    open spec fn token(self) -> Seq<char> {
        cell_chars(self)
    }

    open spec fn from_token(token: Seq<char>) -> Option<Self> {
        if token.len() == 2 && exists|c: CellType| reads_as(token[0], token[1], c) {
            Some(choose|c: CellType| reads_as(token[0], token[1], c))
        } else {
            None
        }
    }

    proof fn token_reads_back(self) {
        let t = self.token();
        let back = choose|c: CellType| reads_as(t[0], t[1], c);
        cell_tokens_are_unambiguous(t[0], t[1], self, back);
    }

    fn is_blank(&self) -> bool {
        *self == CellType::Void
    }

    fn write_token(&self) -> &'static str {
        cell_to_token(*self)
    }

    fn read_token(s: &Vec<char>, from: usize, to: usize) -> Option<Self> {
        let ghost token = s@.subrange(from as int, to as int);
        if to - from != 2 {
            return None;
        }
        assert(token[0] == s@[from as int] && token[1] == s@[from + 1]);
        let cell = parse_cell_token(s[from], s[from + 1]);
        proof {
            if let Some(c) = cell {
                let back = choose|c: CellType| reads_as(token[0], token[1], c);
                cell_tokens_are_unambiguous(token[0], token[1], c, back);
            }
        }
        cell
    }
}

impl LayerCell for TileStyle {
    open spec fn storable(self) -> bool {
        true
    }

    open spec fn blank_value() -> Self {
        TileStyle::Regular
    }

    open spec fn token(self) -> Seq<char> {
        self.chars()
    }

    open spec fn from_token(token: Seq<char>) -> Option<Self> {
        if exists|s: TileStyle| #[trigger] s.chars() == token {
            Some(choose|s: TileStyle| #[trigger] s.chars() == token)
        } else {
            None
        }
    }

    proof fn token_reads_back(self) {
        lemma_style_unambiguous(self, choose|s: TileStyle| #[trigger] s.chars() == self.token());
    }

    fn is_blank(&self) -> bool {
        *self == TileStyle::Regular
    }

    fn write_token(&self) -> &'static str {
        self.as_str()
    }

    fn read_token(s: &Vec<char>, from: usize, to: usize) -> Option<Self> {
        let ghost token = s@.subrange(from as int, to as int);
        if to - from != 2 {
            proof {
                assert forall|s: TileStyle| #[trigger] s.chars() != token by {
                    assert(s.chars().len() == 2);
                }
            }
            return None;
        }
        assert(token =~= seq![s@[from as int], s@[from + 1]]);
        let style = parse_style_token(s[from], s[from + 1]);
        proof {
            if let Some(found) = style {
                lemma_style_unambiguous(found, choose|s: TileStyle| #[trigger] s.chars() == token);
            }
        }
        style
    }
}

proof fn lemma_style_unambiguous(a: TileStyle, b: TileStyle)
    requires
        a.chars() == b.chars(),
    ensures
        a == b,
{
    assert(a.chars()[0] == b.chars()[0]);
    assert(a.chars()[1] == b.chars()[1]);
}

/// Why a layer text was rejected. Lines count from one, rows and columns from zero.
#[derive(Debug, Clone, Copy, PartialEq, Eq, Structural)]
pub enum LevelTextError {
    /// A header came before the section above it was complete.
    RowCount { line: usize, floor: i32, rows: usize },
    /// What follows `# floor ` is not a number.
    BadFloorIndex { line: usize },
    /// The floor number is none of a column's floors.
    FloorOutOfRange { line: usize, floor: i32 },
    /// Grid data before the first header.
    MissingHeader { line: usize },
    /// A section goes on after its last row.
    TooManyRows { line: usize, floor: i32 },
    /// A row does not have one token per column.
    TokenCount { line: usize, floor: i32, row: usize, tokens: usize },
    /// A token stands for no value.
    InvalidToken { line: usize, floor: i32, row: usize, col: usize },
    /// The text ends inside a section.
    SectionEnded { floor: i32, rows: usize },
}

/// Sections read so far, and the section that is being read.
#[verifier::ext_equal]
pub ghost struct LayerState<C> {
    pub sections: Seq<(i32, Seq<Seq<C>>)>,
    pub floor: Option<i32>,
    pub rows: Seq<Seq<C>>,
}

pub open spec fn header() -> Seq<char> {
    seq!['#', ' ', 'f', 'l', 'o', 'o', 'r', ' ']
}

/// Index of the first token from `i` on that stands for no value, or their number.
pub open spec fn first_bad<C: LayerCell>(toks: Seq<Seq<char>>, i: int) -> int
    decreases toks.len() - i,
{
    if i >= toks.len() {
        toks.len() as int
    } else if C::from_token(toks[i]) is None {
        i
    } else {
        first_bad::<C>(toks, i + 1)
    }
}

/// The values that a row of valid tokens stands for.
pub open spec fn row_values<C: LayerCell>(toks: Seq<Seq<char>>) -> Seq<C> {
    Seq::new(toks.len(), |i: int| C::from_token(toks[i])->0)
}

/// Reads one line `s[from..to]`.
pub open spec fn feed<C: LayerCell>(
    st: LayerState<C>,
    s: Seq<char>,
    from: int,
    to: int,
    line: int,
) -> Result<LayerState<C>, LevelTextError> {
    let a = skip_space(s, from, to);
    let b = trim_end(s, a, to);
    if a >= to {
        Ok(st)
    } else if b - a >= 8 && s.subrange(a, a + 8) == header() {
        if st.floor is Some && st.rows.len() != 128 {
            Err(
                LevelTextError::RowCount {
                    line: line as usize,
                    floor: st.floor->0,
                    rows: st.rows.len() as usize,
                },
            )
        } else {
            let sections = if st.floor is Some {
                st.sections.push((st.floor->0, st.rows))
            } else {
                st.sections
            };
            match parse_int(s.subrange(skip_space(s, a + 8, b), b)) {
                None => Err(LevelTextError::BadFloorIndex { line: line as usize }),
                Some(n) => if floor_in_range(n) {
                    Ok(LayerState { sections, floor: Some(n as i32), rows: seq![] })
                } else {
                    Err(LevelTextError::FloorOutOfRange { line: line as usize, floor: n as i32 })
                },
            }
        }
    } else {
        match st.floor {
            None => Err(LevelTextError::MissingHeader { line: line as usize }),
            Some(floor) => {
                let toks = tokens(s, a, b);
                let bad = first_bad::<C>(toks, 0);
                if st.rows.len() >= 128 {
                    Err(LevelTextError::TooManyRows { line: line as usize, floor })
                } else if toks.len() != 128 {
                    Err(
                        LevelTextError::TokenCount {
                            line: line as usize,
                            floor,
                            row: st.rows.len() as usize,
                            tokens: toks.len() as usize,
                        },
                    )
                } else if bad < 128 {
                    Err(
                        LevelTextError::InvalidToken {
                            line: line as usize,
                            floor,
                            row: st.rows.len() as usize,
                            col: bad as usize,
                        },
                    )
                } else {
                    Ok(
                        LayerState {
                            sections: st.sections,
                            floor: st.floor,
                            rows: st.rows.push(row_values::<C>(toks)),
                        },
                    )
                }
            },
        }
    }
}

/// Reads all lines from index `from` on; the first of them has number `line`.
pub open spec fn feed_all<C: LayerCell>(
    st: LayerState<C>,
    s: Seq<char>,
    from: int,
    line: int,
) -> Result<LayerState<C>, LevelTextError>
    decreases s.len() + 1 - from,
{
    if from >= s.len() {
        Ok(st)
    } else {
        let end = line_end(s, from);
        if end < from || end > s.len() {
            Ok(st)
        } else {
            match feed::<C>(st, s, from, end, line) {
                Ok(next) => feed_all::<C>(next, s, end + 1, line + 1),
                Err(e) => Err(e),
            }
        }
    }
}

/// The sections of a text: `(floor, rows)` in the order of the text.
pub open spec fn parse_layer<C: LayerCell>(s: Seq<char>) -> Result<
    Seq<(i32, Seq<Seq<C>>)>,
    LevelTextError,
> {
    match feed_all::<C>(LayerState { sections: seq![], floor: None, rows: seq![] }, s, 0, 1) {
        Err(e) => Err(e),
        Ok(st) => match st.floor {
            None => Ok(st.sections),
            Some(floor) => if st.rows.len() == 128 {
                Ok(st.sections.push((floor, st.rows)))
            } else {
                Err(LevelTextError::SectionEnded { floor, rows: st.rows.len() as usize })
            },
        },
    }
}

/// The rows of a section as sequences.
pub open spec fn rows_view<C>(rows: Seq<Vec<C>>) -> Seq<Seq<C>> {
    rows.map_values(|row: Vec<C>| row@)
}

/// Parsed sections as sequences.
pub open spec fn sections_view<C>(sections: Seq<(i32, Vec<Vec<C>>)>) -> Seq<(i32, Seq<Seq<C>>)> {
    sections.map_values(|p: (i32, Vec<Vec<C>>)| (p.0, rows_view(p.1@)))
}

/// Reads the tokens `toks` of one row; the column of the first that stands for no value
/// otherwise.
fn read_row<C: LayerCell>(s: &Vec<char>, toks: &Vec<(usize, usize)>, Ghost(model): Ghost<Seq<Seq<char>>>) -> (row: Result<
    Vec<C>,
    usize,
>)
    requires
        toks@.len() == model.len(),
        forall|k: int|
            0 <= k < toks@.len() ==> {
                let (a, b) = #[trigger] toks@[k];
                a < b <= s@.len() && s@.subrange(a as int, b as int) == model[k]
            },
    ensures
        match row {
            Ok(values) => first_bad::<C>(model, 0) == model.len() && values@ == row_values::<C>(model),
            Err(col) => col == first_bad::<C>(model, 0) && col < model.len(),
        },
{
    let mut values: Vec<C> = Vec::with_capacity(toks.len());
    let mut i: usize = 0;
    while i < toks.len()
        invariant
            i <= toks@.len(),
            toks@.len() == model.len(),
            forall|k: int|
                0 <= k < toks@.len() ==> {
                    let (a, b) = #[trigger] toks@[k];
                    a < b <= s@.len() && s@.subrange(a as int, b as int) == model[k]
                },
            values@ == row_values::<C>(model).take(i as int),
            first_bad::<C>(model, 0) == first_bad::<C>(model, i as int),
        decreases toks@.len() - i,
    {
        let (a, b) = toks[i];
        assert(s@.subrange(a as int, b as int) == model[i as int]);
        match C::read_token(s, a, b) {
            None => {
                return Err(i);
            },
            Some(value) => {
                values.push(value);
                i += 1;
                assert(values@ =~= row_values::<C>(model).take(i as int));
            },
        }
    }
    assert(values@ =~= row_values::<C>(model));
    Ok(values)
}

fn is_header(s: &Vec<char>, a: usize, b: usize) -> (yes: bool)
    requires
        a <= b <= s@.len(),
    ensures
        yes == (b - a >= 8 && s@.subrange(a as int, a + 8) == header()),
{
    if b - a < 8 {
        return false;
    }
    let yes: bool = s[a] == '#' && s[a + 1] == ' ' && s[a + 2] == 'f' && s[a + 3] == 'l' && s[a
        + 4] == 'o' && s[a + 5] == 'o' && s[a + 6] == 'r' && s[a + 7] == ' ';
    proof {
        let cut = s@.subrange(a as int, a + 8);
        if yes {
            assert(cut =~= header());
        } else {
            assert(cut[0] == s@[a as int] && cut[1] == s@[a + 1] && cut[2] == s@[a + 2] && cut[3]
                == s@[a + 3] && cut[4] == s@[a + 4] && cut[5] == s@[a + 5] && cut[6] == s@[a + 6]
                && cut[7] == s@[a + 7]);
            let h = header();
            assert(h[0] == '#' && h[1] == ' ' && h[2] == 'f' && h[3] == 'l' && h[4] == 'o' && h[5]
                == 'o' && h[6] == 'r' && h[7] == ' ');
        }
    }
    yes
}

proof fn lemma_sections_push<C>(sections: Seq<(i32, Vec<Vec<C>>)>, entry: (i32, Vec<Vec<C>>))
    ensures
        sections_view(sections.push(entry)) == sections_view(sections).push(
            (entry.0, rows_view(entry.1@)),
        ),
{
    assert(sections_view(sections.push(entry)) =~= sections_view(sections).push(
        (entry.0, rows_view(entry.1@)),
    ));
}

proof fn lemma_rows_push<C>(rows: Seq<Vec<C>>, row: Vec<C>)
    ensures
        rows_view(rows.push(row)) == rows_view(rows).push(row@),
{
    assert(rows_view(rows.push(row)) =~= rows_view(rows).push(row@));
}

/// Parses a layer text into `(floor, rows)` with each row of length `HYPERMAP_CHUNK_SIZE`.
fn parse_layer_sections<C: LayerCell>(text: &str) -> (parsed: Result<
    Vec<(i32, Vec<Vec<C>>)>,
    LevelTextError,
>)
    ensures
        match parsed {
            Ok(sections) => parse_layer::<C>(text@) == Ok::<_, LevelTextError>(
                sections_view(sections@),
            ),
            Err(e) => parse_layer::<C>(text@) == Err::<Seq<(i32, Seq<Seq<C>>)>, _>(e),
        },
{
    let s: Vec<char> = chars_of(text);
    let mut sections: Vec<(i32, Vec<Vec<C>>)> = Vec::new();
    let mut current_floor: Option<i32> = None;
    let mut rows: Vec<Vec<C>> = Vec::new();
    let ghost init = LayerState::<C> { sections: seq![], floor: None, rows: seq![] };
    let ghost whole = feed_all::<C>(init, s@, 0, 1);
    let mut at: usize = 0;
    let mut line: usize = 0;
    assert(sections_view(sections@) =~= seq![]);
    assert(rows_view(rows@) =~= seq![]);
    while at < s.len()
        invariant
            s@ == text@,
            at <= s@.len(),
            line <= at,
            whole == feed_all::<C>(init, s@, 0, 1),
            init == (LayerState::<C> { sections: seq![], floor: None, rows: seq![] }),
            whole == feed_all::<C>(
                LayerState {
                    sections: sections_view(sections@),
                    floor: current_floor,
                    rows: rows_view(rows@),
                },
                s@,
                at as int,
                line + 1,
            ),
        decreases s@.len() - at,
    {
        let ghost st = LayerState::<C> {
            sections: sections_view(sections@),
            floor: current_floor,
            rows: rows_view(rows@),
        };
        let end: usize = find_line_end(&s, at);
        let a: usize = find_skip_space(&s, at, end);
        let b: usize = find_trim_end(&s, a, end);
        line += 1;
        let ghost fed = feed::<C>(st, s@, at as int, end as int, line as int);
        if a >= end {
        } else if is_header(&s, a, b) {
            match current_floor {
                Some(f) => {
                    if rows.len() != 128 {
                        return Err(
                            LevelTextError::RowCount { line, floor: f, rows: rows.len() },
                        );
                    }
                    let mut finished: Vec<Vec<C>> = Vec::new();
                    std::mem::swap(&mut finished, &mut rows);
                    proof {
                        lemma_sections_push(sections@, (f, finished));
                    }
                    sections.push((f, finished));
                },
                None => {
                    rows = Vec::new();
                },
            }
            assert(rows_view(rows@) =~= seq![]);
            let r: usize = find_skip_space(&s, a + 8, b);
            match read_int(&s, r, b) {
                None => {
                    return Err(LevelTextError::BadFloorIndex { line });
                },
                Some(n) => {
                    if n < 0 || n >= HYPERMAP_FLOOR_COUNT as i32 {
                        return Err(LevelTextError::FloorOutOfRange { line, floor: n });
                    }
                    current_floor = Some(n);
                },
            }
        } else {
            match current_floor {
                None => {
                    return Err(LevelTextError::MissingHeader { line });
                },
                Some(floor) => {
                    if rows.len() >= 128 {
                        return Err(LevelTextError::TooManyRows { line, floor });
                    }
                    let toks: Vec<(usize, usize)> = find_tokens(&s, a, b);
                    if toks.len() != 128 {
                        return Err(
                            LevelTextError::TokenCount {
                                line,
                                floor,
                                row: rows.len(),
                                tokens: toks.len(),
                            },
                        );
                    }
                    match read_row::<C>(&s, &toks, Ghost(tokens(s@, a as int, b as int))) {
                        Err(col) => {
                            return Err(
                                LevelTextError::InvalidToken { line, floor, row: rows.len(), col },
                            );
                        },
                        Ok(values) => {
                            proof {
                                lemma_rows_push(rows@, values);
                            }
                            rows.push(values);
                        },
                    }
                },
            }
        }
        assert(fed == Ok::<LayerState<C>, LevelTextError>(
            LayerState {
                sections: sections_view(sections@),
                floor: current_floor,
                rows: rows_view(rows@),
            },
        ));
        if end >= s.len() {
            proof {
                let next = LayerState::<C> {
                    sections: sections_view(sections@),
                    floor: current_floor,
                    rows: rows_view(rows@),
                };
                assert(feed_all::<C>(next, s@, end + 1, line + 1) == feed_all::<C>(
                    next,
                    s@,
                    end as int,
                    line + 1,
                ));
            }
            at = end;
        } else {
            at = end + 1;
        }
    }
    match current_floor {
        Some(f) => {
            if rows.len() != 128 {
                return Err(LevelTextError::SectionEnded { floor: f, rows: rows.len() });
            }
            proof {
                lemma_sections_push(sections@, (f, rows));
            }
            sections.push((f, rows));
        },
        None => {},
    }
    Ok(sections)
}

/// Whether every cell of a floor holds the blank value.
pub open spec fn floor_blank<C: LayerCell>(chunk: HypermapChunk<C>, floor: int) -> bool {
    forall|l: LocalCoord| l.in_chunk() ==> #[trigger] chunk.at(l, floor) == C::blank_value()
}

/// Whether every cell that a text of the chunk names can be stored.
pub open spec fn layer_storable<C: LayerCell>(chunk: HypermapChunk<C>) -> bool {
    forall|l: LocalCoord, f: int|
        l.in_chunk() && floor_in_range(f) && !floor_blank(chunk, f) ==> (#[trigger] chunk.at(
            l,
            f,
        )).storable()
}

pub open spec fn local(x: int, y: int) -> LocalCoord {
    LocalCoord { x: x as i32, y: y as i32 }
}

/// The first `x` tokens of a row, separated by single spaces.
pub open spec fn row_text<C: LayerCell>(
    chunk: HypermapChunk<C>,
    floor: int,
    y: int,
    x: nat,
) -> Seq<char>
    decreases x,
{
    if x == 0 {
        seq![]
    } else {
        row_text(chunk, floor, y, (x - 1) as nat) + (if x > 1 {
            seq![' ']
        } else {
            seq![]
        }) + chunk.at(local(x - 1, y), floor).token()
    }
}

/// The first `y` rows of a floor, one line each.
pub open spec fn rows_text<C: LayerCell>(chunk: HypermapChunk<C>, floor: int, y: nat) -> Seq<char>
    decreases y,
{
    if y == 0 {
        seq![]
    } else {
        rows_text(chunk, floor, (y - 1) as nat) + row_text(chunk, floor, y - 1, 128) + seq!['\n']
    }
}

pub open spec fn header_text(floor: int) -> Seq<char> {
    header() + decimal(floor) + seq!['\n']
}

/// The sections of the first `n` floors; blank floors have none.
pub open spec fn floors_text<C: LayerCell>(chunk: HypermapChunk<C>, n: nat) -> Seq<char>
    decreases n,
{
    if n == 0 {
        seq![]
    } else if floor_blank(chunk, n - 1) {
        floors_text(chunk, (n - 1) as nat)
    } else {
        floors_text(chunk, (n - 1) as nat) + header_text(n - 1) + rows_text(chunk, n - 1, 128)
    }
}

fn is_floor_blank<C: LayerCell>(chunk: &HypermapChunk<C>, floor: i32) -> (blank: bool)
    requires
        chunk.wf(),
        floor_in_range(floor as int),
    ensures
        blank == floor_blank(*chunk, floor as int),
{
    let mut y: i32 = 0;
    while y < HYPERMAP_CHUNK_SIZE
        invariant
            chunk.wf(),
            floor_in_range(floor as int),
            0 <= y <= 128,
            forall|l: LocalCoord|
                l.in_chunk() && l.y < y ==> #[trigger] chunk.at(l, floor as int)
                    == C::blank_value(),
        decreases 128 - y,
    {
        let mut x: i32 = 0;
        while x < HYPERMAP_CHUNK_SIZE
            invariant
                chunk.wf(),
                floor_in_range(floor as int),
                0 <= y < 128,
                0 <= x <= 128,
                forall|l: LocalCoord|
                    l.in_chunk() && (l.y < y || (l.y == y && l.x < x)) ==> #[trigger] chunk.at(
                        l,
                        floor as int,
                    ) == C::blank_value(),
            decreases 128 - x,
        {
            let at = LocalCoord::new(x, y);
            if !chunk.get_local_floor(at, floor).is_blank() {
                return false;
            }
            x += 1;
        }
        y += 1;
    }
    true
}

fn push_row<C: LayerCell>(out: &mut String, chunk: &HypermapChunk<C>, floor: i32, y: i32)
    requires
        chunk.wf(),
        floor_in_range(floor as int),
        0 <= y < 128,
    ensures
        final(out)@ == old(out)@ + row_text(*chunk, floor as int, y as int, 128) + seq!['\n'],
        forall|x: int|
            0 <= x < 128 ==> (#[trigger] chunk.at(local(x, y as int), floor as int)).storable(),
{
    let mut x: i32 = 0;
    while x < HYPERMAP_CHUNK_SIZE
        invariant
            chunk.wf(),
            floor_in_range(floor as int),
            0 <= y < 128,
            0 <= x <= 128,
            out@ == old(out)@ + row_text(*chunk, floor as int, y as int, x as nat),
            forall|k: int|
                0 <= k < x ==> (#[trigger] chunk.at(local(k, y as int), floor as int)).storable(),
        decreases 128 - x,
    {
        let ghost before = out@;
        if x > 0 {
            proof {
                reveal_strlit(" ");
            }
            out.append(" ");
            assert(out@ =~= before + seq![' ']);
        }
        let at = LocalCoord::new(x, y);
        assert(at == local(x as int, y as int));
        out.append(chunk.get_local_floor(at, floor).write_token());
        x += 1;
        assert(out@ =~= old(out)@ + row_text(*chunk, floor as int, y as int, x as nat));
    }
    proof {
        reveal_strlit("\n");
    }
    out.append("\n");
    assert(out@ =~= old(out)@ + row_text(*chunk, floor as int, y as int, 128) + seq!['\n']);
}

fn encode_layer<C: LayerCell>(chunk: &HypermapChunk<C>) -> (text: String)
    requires
        chunk.wf(),
    ensures
        text@ == floors_text(*chunk, 10),
        layer_storable(*chunk),
{
    let mut out = String::new();
    let mut floor: i32 = 0;
    while floor < HYPERMAP_FLOOR_COUNT as i32
        invariant
            chunk.wf(),
            0 <= floor <= 10,
            out@ == floors_text(*chunk, floor as nat),
            forall|l: LocalCoord, f: int|
                l.in_chunk() && 0 <= f < floor && !floor_blank(*chunk, f) ==> (
                #[trigger] chunk.at(l, f)).storable(),
        decreases 10 - floor,
    {
        if !is_floor_blank(chunk, floor) {
            proof {
                reveal_strlit("# floor ");
                reveal_strlit("\n");
            }
            let ghost before = out@;
            out.append("# floor ");
            assert(out@ =~= before + header());
            push_decimal(&mut out, floor);
            out.append("\n");
            assert(out@ =~= before + header_text(floor as int));
            let ghost headed = out@;
            let mut y: i32 = 0;
            while y < HYPERMAP_CHUNK_SIZE
                invariant
                    chunk.wf(),
                    0 <= floor < 10,
                    0 <= y <= 128,
                    out@ == headed + rows_text(*chunk, floor as int, y as nat),
                    forall|l: LocalCoord|
                        l.in_chunk() && l.y < y ==> (#[trigger] chunk.at(
                            l,
                            floor as int,
                        )).storable(),
                decreases 128 - y,
            {
                push_row(&mut out, chunk, floor, y);
                proof {
                    assert(out@ =~= headed + rows_text(*chunk, floor as int, (y + 1) as nat));
                    assert forall|l: LocalCoord| l.in_chunk() && l.y < y + 1 implies (
                    #[trigger] chunk.at(l, floor as int)).storable() by {
                        if l.y == y {
                            assert(l == local(l.x as int, y as int));
                        }
                    }
                }
                y += 1;
            }
            assert(out@ =~= floors_text(*chunk, (floor + 1) as nat));
        }
        floor += 1;
    }
    out
}

/// Serializes one chunk (all floors that are not all void) to the level geometry text format.
pub fn encode_chunk_geometry(chunk: &HypermapChunk<CellType>) -> (text: String)
    requires
        chunk.wf(),
    ensures
        text@ == floors_text(*chunk, 10),
        layer_storable(*chunk),
{
    encode_layer(chunk)
}

/// Serializes one chunk's style layer to text. Floors where every cell is
/// [`TileStyle::DEFAULT`] are omitted. Returns an empty string if the whole
/// chunk is default style.
pub fn encode_chunk_style(chunk: &HypermapChunk<TileStyle>) -> (text: String)
    requires
        chunk.wf(),
    ensures
        text@ == floors_text(*chunk, 10),
        text@.len() == 0 <==> forall|f: int| 0 <= f < 10 ==> #[trigger] floor_blank(*chunk, f),
{
    proof {
        lemma_text_empty(*chunk, 10);
    }
    encode_layer(chunk)
}

proof fn lemma_text_empty<C: LayerCell>(chunk: HypermapChunk<C>, n: nat)
    ensures
        floors_text(chunk, n).len() == 0 <==> forall|f: int| 0 <= f < n ==> floor_blank(chunk, f),
    decreases n,
{
    if n > 0 {
        lemma_text_empty(chunk, (n - 1) as nat);
        if floor_blank(chunk, n - 1) {
            assert forall|f: int| 0 <= f < n implies floor_blank(chunk, f) || floors_text(
                chunk,
                n,
            ).len() > 0 by {
                if f < n - 1 && floors_text(chunk, (n - 1) as nat).len() == 0 {
                    assert(floor_blank(chunk, f));
                }
            }
        } else {
            assert(floors_text(chunk, n).len() >= header().len());
        }
    }
}

/// Parses geometry text into `(floor, rows)` with each row length `HYPERMAP_CHUNK_SIZE`.
pub fn parse_level_geometry_sections(text: &str) -> (parsed: Result<
    Vec<(i32, Vec<Vec<CellType>>)>,
    LevelTextError,
>)
    ensures
        match parsed {
            Ok(sections) => parse_layer::<CellType>(text@) == Ok::<_, LevelTextError>(
                sections_view(sections@),
            ),
            Err(e) => parse_layer::<CellType>(text@) == Err::<Seq<(i32, Seq<Seq<CellType>>)>, _>(e),
        },
{
    parse_layer_sections(text)
}

/// Parses a style text into `(floor, rows)` sections.
pub fn parse_level_style_sections(text: &str) -> (parsed: Result<
    Vec<(i32, Vec<Vec<TileStyle>>)>,
    LevelTextError,
>)
    ensures
        match parsed {
            Ok(sections) => parse_layer::<TileStyle>(text@) == Ok::<_, LevelTextError>(
                sections_view(sections@),
            ),
            Err(e) => parse_layer::<TileStyle>(text@) == Err::<Seq<(i32, Seq<Seq<TileStyle>>)>, _>(
                e,
            ),
        },
{
    parse_layer_sections(text)
}

/// A section covers one floor of a chunk completely.
pub open spec fn section_complete<C>(section: (i32, Seq<Seq<C>>)) -> bool {
    &&& floor_in_range(section.0 as int)
    &&& section.1.len() == 128
    &&& forall|y: int| 0 <= y < 128 ==> (#[trigger] section.1[y]).len() == 128
}

spec fn state_ok<C>(st: LayerState<C>) -> bool {
    &&& forall|i: int| 0 <= i < st.sections.len() ==> section_complete(#[trigger] st.sections[i])
    &&& st.floor is Some ==> floor_in_range(st.floor->0 as int)
    &&& forall|y: int| 0 <= y < st.rows.len() ==> (#[trigger] st.rows[y]).len() == 128
}

proof fn lemma_feed_ok<C: LayerCell>(st: LayerState<C>, s: Seq<char>, from: int, to: int, line: int)
    requires
        state_ok(st),
    ensures
        feed::<C>(st, s, from, to, line) is Ok ==> state_ok(feed::<C>(st, s, from, to, line)->Ok_0),
{
    if feed::<C>(st, s, from, to, line) is Ok {
        let next = feed::<C>(st, s, from, to, line)->Ok_0;
        assert forall|i: int| 0 <= i < next.sections.len() implies section_complete(
            #[trigger] next.sections[i],
        ) by {
            if i < st.sections.len() {
                assert(section_complete(st.sections[i]));
            }
        }
        assert forall|y: int| 0 <= y < next.rows.len() implies (#[trigger] next.rows[y]).len()
            == 128 by {
            if y < st.rows.len() {
                assert(st.rows[y].len() == 128);
            }
        }
    }
}

proof fn lemma_feed_all_ok<C: LayerCell>(st: LayerState<C>, s: Seq<char>, from: int, line: int)
    requires
        state_ok(st),
    ensures
        feed_all::<C>(st, s, from, line) is Ok ==> state_ok(feed_all::<C>(st, s, from, line)->Ok_0),
    decreases s.len() + 1 - from,
{
    if from < s.len() {
        let end = line_end(s, from);
        if from <= end <= s.len() {
            lemma_feed_ok::<C>(st, s, from, end, line);
            match feed::<C>(st, s, from, end, line) {
                Ok(next) => lemma_feed_all_ok::<C>(next, s, end + 1, line + 1),
                Err(_) => {},
            }
        }
    }
}

/// Every section of an accepted text covers one floor completely.
pub proof fn parsed_sections_are_complete<C: LayerCell>(s: Seq<char>)
    ensures
        parse_layer::<C>(s) is Ok ==> forall|i: int|
            0 <= i < parse_layer::<C>(s)->Ok_0.len() ==> section_complete(
                #[trigger] parse_layer::<C>(s)->Ok_0[i],
            ),
{
    let init = LayerState::<C> { sections: seq![], floor: None, rows: seq![] };
    lemma_feed_all_ok::<C>(init, s, 0, 1);
}

/// The value of a cell after sections were laid over `base`: the last section of the
/// cell's floor decides.
pub open spec fn section_value<C>(
    sections: Seq<(i32, Seq<Seq<C>>)>,
    l: LocalCoord,
    floor: int,
    base: C,
) -> C
    decreases sections.len(),
{
    if sections.len() == 0 {
        base
    } else if sections.last().0 == floor {
        sections.last().1[l.y as int][l.x as int]
    } else {
        section_value(sections.drop_last(), l, floor, base)
    }
}

fn write_section<C: LayerCell>(chunk: &mut HypermapChunk<C>, floor: i32, rows: &Vec<Vec<C>>)
    requires
        old(chunk).wf(),
        section_complete((floor, rows_view(rows@))),
    ensures
        final(chunk).wf(),
        forall|l: LocalCoord, f: int|
            l.in_chunk() && floor_in_range(f) ==> #[trigger] final(chunk).at(l, f) == if f == floor {
                rows@[l.y as int]@[l.x as int]
            } else {
                old(chunk).at(l, f)
            },
{
    let ghost model = rows_view(rows@);
    let mut y: i32 = 0;
    while y < HYPERMAP_CHUNK_SIZE
        invariant
            chunk.wf(),
            model == rows_view(rows@),
            section_complete((floor, model)),
            0 <= y <= 128,
            forall|l: LocalCoord, f: int|
                l.in_chunk() && floor_in_range(f) ==> #[trigger] chunk.at(l, f) == if f == floor
                    && l.y < y {
                    rows@[l.y as int]@[l.x as int]
                } else {
                    old(chunk).at(l, f)
                },
        decreases 128 - y,
    {
        assert(model[y as int].len() == 128);
        assert(rows@.len() == 128);
        let mut x: i32 = 0;
        while x < HYPERMAP_CHUNK_SIZE
            invariant
                chunk.wf(),
                floor_in_range(floor as int),
                rows@.len() == 128,
                0 <= y < 128,
                rows@[y as int]@.len() == 128,
                0 <= x <= 128,
                forall|l: LocalCoord, f: int|
                    l.in_chunk() && floor_in_range(f) ==> #[trigger] chunk.at(l, f) == if f
                        == floor && (l.y < y || (l.y == y && l.x < x)) {
                        rows@[l.y as int]@[l.x as int]
                    } else {
                        old(chunk).at(l, f)
                    },
            decreases 128 - x,
        {
            chunk.set_local_floor(LocalCoord::new(x, y), floor, rows[y as usize][x as usize]);
            x += 1;
        }
        y += 1;
    }
}

pub(crate) fn apply_sections<C: LayerCell>(chunk: &mut HypermapChunk<C>, sections: &Vec<(i32, Vec<Vec<C>>)>)
    requires
        old(chunk).wf(),
        forall|i: int|
            0 <= i < sections@.len() ==> section_complete(
                #[trigger] sections_view(sections@)[i],
            ),
    ensures
        final(chunk).wf(),
        forall|l: LocalCoord, f: int|
            l.in_chunk() && floor_in_range(f) ==> #[trigger] final(chunk).at(l, f) == section_value(
                sections_view(sections@),
                l,
                f,
                old(chunk).at(l, f),
            ),
{
    let ghost model = sections_view(sections@);
    let mut i: usize = 0;
    while i < sections.len()
        invariant
            chunk.wf(),
            i <= sections@.len(),
            model == sections_view(sections@),
            forall|k: int| 0 <= k < sections@.len() ==> section_complete(#[trigger] model[k]),
            forall|l: LocalCoord, f: int|
                l.in_chunk() && floor_in_range(f) ==> #[trigger] chunk.at(l, f) == section_value(
                    model.take(i as int),
                    l,
                    f,
                    old(chunk).at(l, f),
                ),
        decreases sections@.len() - i,
    {
        assert(section_complete(model[i as int]));
        assert(model.take(i + 1).drop_last() =~= model.take(i as int));
        assert(model.take(i + 1).last() == model[i as int]);
        write_section(chunk, sections[i].0, &sections[i].1);
        i += 1;
    }
    assert(model.take(i as int) =~= model);
}

/// Sets every cell on every floor to void.
pub fn clear_chunk_all_void(chunk: &mut HypermapChunk<CellType>)
    requires
        old(chunk).wf(),
    ensures
        final(chunk).wf(),
        forall|l: LocalCoord, f: int|
            l.in_chunk() && floor_in_range(f) ==> #[trigger] final(chunk).at(l, f)
                == CellType::Void,
{
    *chunk = HypermapChunk::new(&CellType::Void);
}

/// Clears the chunk to void on every floor, then applies geometry from `text`. A text
/// that is rejected leaves the chunk as it was.
pub fn apply_level_geometry_text(chunk: &mut HypermapChunk<CellType>, text: &str) -> (applied: Result<
    (),
    LevelTextError,
>)
    requires
        old(chunk).wf(),
    ensures
        final(chunk).wf(),
        match applied {
            Ok(_) => parse_layer::<CellType>(text@) is Ok && forall|l: LocalCoord, f: int|
                l.in_chunk() && floor_in_range(f) ==> #[trigger] final(chunk).at(l, f)
                    == section_value(parse_layer::<CellType>(text@)->Ok_0, l, f, CellType::Void),
            Err(e) => parse_layer::<CellType>(text@) == Err::<Seq<(i32, Seq<Seq<CellType>>)>, _>(e)
                && *final(chunk) == *old(chunk),
        },
{
    match parse_level_geometry_sections(text) {
        Err(e) => Err(e),
        Ok(sections) => {
            proof {
                parsed_sections_are_complete::<CellType>(text@);
                let model = sections_view(sections@);
                assert forall|i: int| 0 <= i < sections@.len() implies section_complete(
                    #[trigger] model[i],
                ) by {
                    assert(model[i] == parse_layer::<CellType>(text@)->Ok_0[i]);
                }
            }
            clear_chunk_all_void(chunk);
            apply_sections(chunk, &sections);
            Ok(())
        },
    }
}

/// Lays the styles from `text` over the chunk; floors that the text omits keep theirs. A
/// text that is rejected leaves the chunk as it was.
pub fn apply_level_style_text(chunk: &mut HypermapChunk<TileStyle>, text: &str) -> (applied: Result<
    (),
    LevelTextError,
>)
    requires
        old(chunk).wf(),
    ensures
        final(chunk).wf(),
        match applied {
            Ok(_) => parse_layer::<TileStyle>(text@) is Ok && forall|l: LocalCoord, f: int|
                l.in_chunk() && floor_in_range(f) ==> #[trigger] final(chunk).at(l, f)
                    == section_value(
                    parse_layer::<TileStyle>(text@)->Ok_0,
                    l,
                    f,
                    old(chunk).at(l, f),
                ),
            Err(e) => parse_layer::<TileStyle>(text@) == Err::<Seq<(i32, Seq<Seq<TileStyle>>)>, _>(
                e,
            ) && *final(chunk) == *old(chunk),
        },
{
    match parse_level_style_sections(text) {
        Err(e) => Err(e),
        Ok(sections) => {
            proof {
                parsed_sections_are_complete::<TileStyle>(text@);
                let model = sections_view(sections@);
                assert forall|i: int| 0 <= i < sections@.len() implies section_complete(
                    #[trigger] model[i],
                ) by {
                    assert(model[i] == parse_layer::<TileStyle>(text@)->Ok_0[i]);
                }
            }
            apply_sections(chunk, &sections);
            Ok(())
        },
    }
}

} // verus!
