//! What a level text gives back of the chunk that it was written from.

use vstd::prelude::*;

use crate::map::hypermap::{floor_in_range, HypermapChunk, LocalCoord};
use crate::map::level::{
    feed, feed_all, first_bad, floor_blank, floors_text, header, header_text, layer_storable,
    local, parse_layer, row_text, row_values, rows_text, section_value, LayerCell, LayerState,
    LevelTextError,
};
use crate::text::{
    decimal, digits_value, line_end, parse_int, skip_space, token_end, tokens, trim_end,
};

verus! {

/// The cells of one floor, row by row.
pub open spec fn floor_rows<C: LayerCell>(chunk: HypermapChunk<C>, floor: int) -> Seq<Seq<C>> {
    Seq::new(128, |y: int| floor_row(chunk, floor, y))
}

pub open spec fn floor_row<C: LayerCell>(chunk: HypermapChunk<C>, floor: int, y: int) -> Seq<C> {
    Seq::new(128, |x: int| chunk.at(local(x, y), floor))
}

/// The sections that a text of the first `n` floors holds.
pub open spec fn stored_sections<C: LayerCell>(chunk: HypermapChunk<C>, n: nat) -> Seq<
    (i32, Seq<Seq<C>>),
>
    decreases n,
{
    if n == 0 {
        seq![]
    } else if floor_blank(chunk, n - 1) {
        stored_sections(chunk, (n - 1) as nat)
    } else {
        stored_sections(chunk, (n - 1) as nat).push(((n - 1) as i32, floor_rows(chunk, n - 1)))
    }
}

spec fn storable_row<C: LayerCell>(chunk: HypermapChunk<C>, floor: int, y: int) -> bool {
    forall|x: int| 0 <= x < 128 ==> (#[trigger] chunk.at(local(x, y), floor)).storable()
}

proof fn lemma_row_chars<C: LayerCell>(chunk: HypermapChunk<C>, floor: int, y: int, x: nat)
    requires
        storable_row(chunk, floor, y),
        x <= 128,
    ensures
        x > 0 ==> row_text(chunk, floor, y, x).len() == 3 * x - 1,
        x == 0 ==> row_text(chunk, floor, y, x).len() == 0,
        forall|k: int|
            0 <= k < x ==> {
                let t = (#[trigger] chunk.at(local(k, y), floor)).token();
                row_text(chunk, floor, y, x)[3 * k] == t[0] && row_text(chunk, floor, y, x)[3 * k
                    + 1] == t[1]
            },
        forall|k: int| 0 <= k < x - 1 ==> #[trigger] row_text(chunk, floor, y, x)[3 * k + 2] == ' ',
    decreases x,
{
    if x > 0 {
        lemma_row_chars(chunk, floor, y, (x - 1) as nat);
        let value = chunk.at(local(x - 1, y), floor);
        assert(value.storable());
        value.token_reads_back();
        let shorter = row_text(chunk, floor, y, (x - 1) as nat);
        let text = row_text(chunk, floor, y, x);
        assert(forall|i: int| 0 <= i < shorter.len() ==> text[i] == shorter[i]);
        assert forall|k: int| 0 <= k < x implies {
            let t = (#[trigger] chunk.at(local(k, y), floor)).token();
            text[3 * k] == t[0] && text[3 * k + 1] == t[1]
        } by {
            if k < x - 1 {
                assert(chunk.at(local(k, y), floor).storable());
                assert(text[3 * k] == shorter[3 * k]);
                assert(text[3 * k + 1] == shorter[3 * k + 1]);
            }
        }
        assert forall|k: int| 0 <= k < x - 1 implies #[trigger] text[3 * k + 2] == ' ' by {
            if k < x - 2 {
                assert(shorter[3 * k + 2] == ' ');
                assert(text[3 * k + 2] == shorter[3 * k + 2]);
            }
        }
    }
}

/// Where row `j` of a floor stands in the text of its rows.
proof fn lemma_rows_layout<C: LayerCell>(chunk: HypermapChunk<C>, floor: int, y: nat)
    requires
        forall|j: int| 0 <= j < 128 ==> #[trigger] storable_row(chunk, floor, j),
        y <= 128,
    ensures
        rows_text(chunk, floor, y).len() == 384 * y,
        forall|j: int|
            0 <= j < y ==> rows_text(chunk, floor, y).subrange(384 * j, 384 * j + 383)
                == #[trigger] row_text(chunk, floor, j, 128),
        forall|j: int|
            0 <= j < y ==> #[trigger] rows_text(chunk, floor, y)[384 * j + 383] == '\n',
    decreases y,
{
    if y > 0 {
        lemma_rows_layout(chunk, floor, (y - 1) as nat);
        assert(storable_row(chunk, floor, y - 1));
        lemma_row_chars(chunk, floor, y - 1, 128);
        let shorter = rows_text(chunk, floor, (y - 1) as nat);
        let text = rows_text(chunk, floor, y);
        assert(forall|i: int| 0 <= i < shorter.len() ==> text[i] == shorter[i]);
        assert forall|j: int| 0 <= j < y implies text.subrange(384 * j, 384 * j + 383)
            == #[trigger] row_text(chunk, floor, j, 128) by {
            if j < y - 1 {
                assert(text.subrange(384 * j, 384 * j + 383) =~= shorter.subrange(
                    384 * j,
                    384 * j + 383,
                ));
            } else {
                assert(text.subrange(384 * j, 384 * j + 383) =~= row_text(chunk, floor, j, 128));
            }
        }
        assert forall|j: int| 0 <= j < y implies #[trigger] text[384 * j + 383] == '\n' by {
            if j < y - 1 {
                assert(shorter[384 * j + 383] == '\n');
            }
        }
    }
}

proof fn lemma_line_end_is(s: Seq<char>, from: int, to: int)
    requires
        0 <= from <= to < s.len(),
        s[to] == '\n',
        forall|i: int| from <= i < to ==> s[i] != '\n',
    ensures
        line_end(s, from) == to,
    decreases to - from,
{
    if from < to {
        lemma_line_end_is(s, from + 1, to);
    }
}

/// The tokens of a row from column `k` on, where `s[at..]` is that token with or without
/// the space before it.
proof fn lemma_row_tokens<C: LayerCell>(
    chunk: HypermapChunk<C>,
    floor: int,
    y: int,
    s: Seq<char>,
    p: int,
    k: int,
    at: int,
)
    requires
        storable_row(chunk, floor, y),
        0 <= k < 128,
        0 <= p,
        p + 383 <= s.len(),
        s.subrange(p, p + 383) == row_text(chunk, floor, y, 128),
        at == p + 3 * k || (k > 0 && at == p + 3 * k - 1),
    ensures
        tokens(s, at, p + 383).len() == 128 - k,
        forall|i: int|
            0 <= i < 128 - k ==> #[trigger] tokens(s, at, p + 383)[i] == chunk.at(
                local(k + i, y),
                floor,
            ).token(),
    decreases 128 - k,
{
    let q = p + 383;
    let text = row_text(chunk, floor, y, 128);
    lemma_row_chars(chunk, floor, y, 128);
    assert(forall|i: int| 0 <= i < 383 ==> s[p + i] == text[i]) by {
        assert forall|i: int| 0 <= i < 383 implies s[p + i] == text[i] by {
            assert(s.subrange(p, q)[i] == s[p + i]);
        }
    }
    let value = chunk.at(local(k, y), floor);
    assert(value.storable());
    value.token_reads_back();
    let t = value.token();
    let a = p + 3 * k;
    assert(s[a] == text[3 * k]);
    assert(s[p + (3 * k + 1)] == text[3 * k + 1]);
    assert(s[a] == t[0] && s[a + 1] == t[1]);
    if k > 0 {
        assert(text[3 * (k - 1) + 2] == ' ');
        assert(s[p + (3 * k - 1)] == text[3 * k - 1]);
        assert(s[a - 1] == ' ');
    }
    assert(skip_space(s, a, q) == a);
    if at < a {
        assert(skip_space(s, at, q) == skip_space(s, at + 1, q));
    }
    assert(skip_space(s, at, q) == a);
    if k < 127 {
        assert(text[3 * k + 2] == ' ');
        assert(s[p + (3 * k + 2)] == text[3 * k + 2]);
        assert(s[a + 2] == ' ');
        assert(token_end(s, a + 2, q) == a + 2);
    } else {
        assert(a + 2 == q);
        assert(token_end(s, a + 2, q) == q);
    }
    assert(token_end(s, a + 1, q) == token_end(s, a + 2, q));
    assert(token_end(s, a, q) == token_end(s, a + 1, q));
    assert(token_end(s, a, q) == a + 2);
    assert(s.subrange(a, a + 2) =~= t);
    let rest = tokens(s, a + 2, q);
    let all = tokens(s, at, q);
    assert(all == seq![s.subrange(a, a + 2)] + rest);
    if k < 127 {
        lemma_row_tokens(chunk, floor, y, s, p, k + 1, a + 2);
    } else {
        assert(rest.len() == 0);
    }
    assert forall|i: int| 0 <= i < 128 - k implies #[trigger] all[i] == chunk.at(
        local(k + i, y),
        floor,
    ).token() by {
        if i > 0 {
            assert(all[i] == rest[i - 1]);
            assert(local(k + 1 + (i - 1), y) == local(k + i, y));
        }
    }
}

proof fn lemma_no_bad<C: LayerCell>(toks: Seq<Seq<char>>, i: int)
    requires
        0 <= i <= toks.len(),
        forall|k: int| 0 <= k < toks.len() ==> C::from_token(#[trigger] toks[k]) is Some,
    ensures
        first_bad::<C>(toks, i) == toks.len(),
    decreases toks.len() - i,
{
    if i < toks.len() {
        lemma_no_bad::<C>(toks, i + 1);
    }
}

/// Reading one written row appends the row's cells.
proof fn lemma_feed_row<C: LayerCell>(
    chunk: HypermapChunk<C>,
    floor: int,
    s: Seq<char>,
    p: int,
    st: LayerState<C>,
    line: int,
)
    requires
        floor_in_range(floor),
        st.floor == Some(floor as i32),
        st.rows.len() < 128,
        storable_row(chunk, floor, st.rows.len() as int),
        0 <= p,
        p + 383 < s.len(),
        s.subrange(p, p + 383) == row_text(chunk, floor, st.rows.len() as int, 128),
        s[p + 383] == '\n',
    ensures
        line_end(s, p) == p + 383,
        feed::<C>(st, s, p, p + 383, line) == Ok::<LayerState<C>, LevelTextError>(
            LayerState {
                sections: st.sections,
                floor: st.floor,
                rows: st.rows.push(floor_row(chunk, floor, st.rows.len() as int)),
            },
        ),
{
    let y = st.rows.len() as int;
    let q = p + 383;
    let text = row_text(chunk, floor, y, 128);
    lemma_row_chars(chunk, floor, y, 128);
    assert forall|i: int| p <= i < q implies s[i] != '\n' by {
        let d = i - p;
        assert(s.subrange(p, q)[d] == s[i]);
        let k = d / 3;
        let value = chunk.at(local(k, y), floor);
        assert(value.storable());
        value.token_reads_back();
        assert(text[3 * k] == value.token()[0] && text[3 * k + 1] == value.token()[1]);
        if d % 3 == 2 {
            assert(text[3 * k + 2] == ' ');
        }
    }
    lemma_line_end_is(s, p, q);
    lemma_row_tokens(chunk, floor, y, s, p, 0, p);
    let first = chunk.at(local(0, y), floor);
    assert(first.storable());
    first.token_reads_back();
    assert(s.subrange(p, q)[0] == s[p]);
    assert(text[3 * 0int] == first.token()[0]);
    assert(s[p] == first.token()[0]);
    assert(skip_space(s, p, q) == p);
    let last = chunk.at(local(127, y), floor);
    assert(last.storable());
    last.token_reads_back();
    assert(s.subrange(p, q)[382] == s[q - 1]);
    assert(text[3 * 127int + 1] == last.token()[1]);
    assert(trim_end(s, p, q) == q);
    assert(s.subrange(p, p + 8) != header()) by {
        assert(s.subrange(p, p + 8)[0] == s[p]);
        assert(header()[0] == '#');
    }
    let toks = tokens(s, p, q);
    assert forall|k: int| 0 <= k < toks.len() implies C::from_token(#[trigger] toks[k]) == Some(
        chunk.at(local(k, y), floor),
    ) by {
        let value = chunk.at(local(k, y), floor);
        assert(toks[k] == chunk.at(local(0 + k, y), floor).token());
        assert(value.storable());
        value.token_reads_back();
    }
    lemma_no_bad::<C>(toks, 0);
    assert(row_values::<C>(toks) =~= floor_row(chunk, floor, y));
}

/// Reading the written rows of a floor from row `y` on.
proof fn lemma_feed_rows<C: LayerCell>(
    chunk: HypermapChunk<C>,
    floor: int,
    s: Seq<char>,
    off: int,
    st: LayerState<C>,
    line: int,
)
    requires
        floor_in_range(floor),
        forall|j: int| 0 <= j < 128 ==> #[trigger] storable_row(chunk, floor, j),
        st.floor == Some(floor as i32),
        st.rows == floor_rows(chunk, floor).take(st.rows.len() as int),
        st.rows.len() <= 128,
        0 <= off,
        off + 49152 <= s.len(),
        s.subrange(off, off + 49152) == rows_text(chunk, floor, 128),
    ensures
        exists|l: int|
            feed_all::<C>(st, s, off + 384 * st.rows.len(), line) == #[trigger] feed_all::<C>(
                LayerState {
                    sections: st.sections,
                    floor: st.floor,
                    rows: floor_rows(chunk, floor),
                },
                s,
                off + 49152,
                l,
            ),
    decreases 128 - st.rows.len(),
{
    let y = st.rows.len() as int;
    let done = LayerState::<C> {
        sections: st.sections,
        floor: st.floor,
        rows: floor_rows(chunk, floor),
    };
    if y == 128 {
        assert(floor_rows(chunk, floor).take(128) =~= floor_rows(chunk, floor));
        assert(feed_all::<C>(st, s, off + 384 * y, line) == feed_all::<C>(
            done,
            s,
            off + 49152,
            line,
        ));
    } else {
        lemma_rows_layout(chunk, floor, 128);
        let p = off + 384 * y;
        let text = rows_text(chunk, floor, 128);
        assert(row_text(chunk, floor, y, 128) == text.subrange(384 * y, 384 * y + 383));
        assert(s.subrange(p, p + 383) =~= s.subrange(off, off + 49152).subrange(
            384 * y,
            384 * y + 383,
        ));
        assert(text[384 * y + 383] == '\n');
        assert(s.subrange(off, off + 49152)[384 * y + 383] == s[p + 383]);
        assert(storable_row(chunk, floor, y));
        lemma_feed_row(chunk, floor, s, p, st, line);
        let next = LayerState::<C> {
            sections: st.sections,
            floor: st.floor,
            rows: st.rows.push(floor_row(chunk, floor, y)),
        };
        assert(next.rows =~= floor_rows(chunk, floor).take(y + 1));
        assert(feed_all::<C>(st, s, p, line) == feed_all::<C>(next, s, p + 384, line + 1));
        lemma_feed_rows(chunk, floor, s, off, next, line + 1);
        let l = choose|l: int|
            feed_all::<C>(next, s, off + 384 * next.rows.len(), line + 1)
                == #[trigger] feed_all::<C>(done, s, off + 49152, l);
        assert(feed_all::<C>(st, s, off + 384 * y, line) == feed_all::<C>(done, s, off + 49152, l));
    }
}

/// Reading a written header opens its section.
proof fn lemma_feed_header<C: LayerCell>(
    floor: int,
    s: Seq<char>,
    p: int,
    st: LayerState<C>,
    line: int,
)
    requires
        floor_in_range(floor),
        0 <= p,
        p + 10 <= s.len(),
        s.subrange(p, p + 10) == header_text(floor),
        st.floor is Some ==> st.rows.len() == 128,
    ensures
        line_end(s, p) == p + 9,
        feed::<C>(st, s, p, p + 9, line) == Ok::<LayerState<C>, LevelTextError>(
            LayerState {
                sections: if st.floor is Some {
                    st.sections.push((st.floor->0, st.rows))
                } else {
                    st.sections
                },
                floor: Some(floor as i32),
                rows: seq![],
            },
        ),
{
    let digit = (floor + '0' as int) as char;
    assert(decimal(floor) =~= seq![digit]);
    let text = header_text(floor);
    assert(text =~= seq!['#', ' ', 'f', 'l', 'o', 'o', 'r', ' ', digit, '\n']);
    assert forall|i: int| 0 <= i < 10 implies s[p + i] == #[trigger] text[i] by {
        assert(s.subrange(p, p + 10)[i] == s[p + i]);
    }
    assert(s[p + 0] == text[0] && s[p + 1] == text[1] && s[p + 2] == text[2] && s[p + 3] == text[3]
        && s[p + 4] == text[4] && s[p + 5] == text[5] && s[p + 6] == text[6] && s[p + 7] == text[7]
        && s[p + 8] == text[8] && s[p + 9] == text[9]);
    lemma_line_end_is(s, p, p + 9);
    assert(skip_space(s, p, p + 9) == p);
    assert(trim_end(s, p, p + 9) == p + 9);
    assert(s.subrange(p, p + 8) =~= header());
    assert(skip_space(s, p + 8, p + 9) == p + 8);
    let number = s.subrange(p + 8, p + 9);
    assert(number =~= seq![digit]);
    assert(digits_value(number.drop_last()) == Some(0int));
    assert(digits_value(number) == Some(floor));
    assert(parse_int(number) == Some(floor));
}

proof fn lemma_text_prefix<C: LayerCell>(chunk: HypermapChunk<C>, n: nat, m: nat)
    requires
        n <= m,
    ensures
        floors_text(chunk, n).len() <= floors_text(chunk, m).len(),
        floors_text(chunk, m).take(floors_text(chunk, n).len() as int) == floors_text(chunk, n),
    decreases m - n,
{
    if n == m {
        assert(floors_text(chunk, m).take(floors_text(chunk, m).len() as int) =~= floors_text(
            chunk,
            m,
        ));
    } else {
        lemma_text_prefix(chunk, n, (m - 1) as nat);
        let a = floors_text(chunk, n);
        let b = floors_text(chunk, (m - 1) as nat);
        let c = floors_text(chunk, m);
        assert(c.take(a.len() as int) =~= b.take(a.len() as int));
    }
}

/// The state after the sections of the first `n` floors were read.
spec fn state_after<C: LayerCell>(chunk: HypermapChunk<C>, n: nat) -> LayerState<C> {
    let stored = stored_sections(chunk, n);
    if stored.len() == 0 {
        LayerState { sections: seq![], floor: None, rows: seq![] }
    } else {
        LayerState {
            sections: stored.drop_last(),
            floor: Some(stored.last().0),
            rows: stored.last().1,
        }
    }
}

/// Where the section of floor `n - 1` stands in the text.
proof fn lemma_floor_in_text<C: LayerCell>(chunk: HypermapChunk<C>, n: nat)
    requires
        layer_storable(chunk),
        1 <= n <= 10,
        !floor_blank(chunk, n - 1),
    ensures
        ({
            let p = floors_text(chunk, (n - 1) as nat).len() as int;
            let s = floors_text(chunk, 10);
            &&& forall|j: int| 0 <= j < 128 ==> #[trigger] storable_row(chunk, n - 1, j)
            &&& floors_text(chunk, n).len() == p + 49162
            &&& p + 49162 <= s.len()
            &&& s.subrange(p, p + 10) == header_text(n - 1)
            &&& s.subrange(p + 10, p + 49162) == rows_text(chunk, n - 1, 128)
        }),
{
    let floor = n - 1;
    let p = floors_text(chunk, (n - 1) as nat).len() as int;
    let s = floors_text(chunk, 10);
    assert forall|j: int| 0 <= j < 128 implies #[trigger] storable_row(chunk, floor, j) by {
        assert forall|x: int| 0 <= x < 128 implies (#[trigger] chunk.at(
            local(x, j),
            floor,
        )).storable() by {
            assert(local(x, j).in_chunk());
        }
    }
    lemma_rows_layout(chunk, floor, 128);
    lemma_text_prefix(chunk, n, 10);
    let here = floors_text(chunk, n);
    assert(decimal(floor).len() == 1);
    assert(header_text(floor).len() == 10);
    assert(here.len() == p + 49162);
    assert forall|i: int| 0 <= i < here.len() implies s[i] == here[i] by {
        assert(s.take(here.len() as int)[i] == s[i]);
    }
    assert(s.subrange(p, p + 10) =~= header_text(floor));
    assert(s.subrange(p + 10, p + 49162) =~= rows_text(chunk, floor, 128));
}

proof fn lemma_feed_floors<C: LayerCell>(chunk: HypermapChunk<C>, n: nat)
    requires
        layer_storable(chunk),
        n <= 10,
    ensures
        exists|l: int|
            feed_all::<C>(
                LayerState { sections: seq![], floor: None, rows: seq![] },
                floors_text(chunk, 10),
                0,
                1,
            ) == #[trigger] feed_all::<C>(
                state_after(chunk, n),
                floors_text(chunk, 10),
                floors_text(chunk, n).len() as int,
                l,
            ),
    decreases n,
{
    let s = floors_text(chunk, 10);
    let init = LayerState::<C> { sections: seq![], floor: None, rows: seq![] };
    if n == 0 {
        assert(feed_all::<C>(init, s, 0, 1) == feed_all::<C>(
            state_after(chunk, 0),
            s,
            floors_text(chunk, 0).len() as int,
            1,
        ));
    } else {
        let m = (n - 1) as nat;
        let floor = n - 1;
        lemma_feed_floors(chunk, m);
        let st = state_after(chunk, m);
        let p = floors_text(chunk, m).len() as int;
        let line = choose|l: int|
            feed_all::<C>(init, s, 0, 1) == #[trigger] feed_all::<C>(st, s, p, l);
        if floor_blank(chunk, floor) {
            assert(feed_all::<C>(init, s, 0, 1) == feed_all::<C>(
                state_after(chunk, n),
                s,
                floors_text(chunk, n).len() as int,
                line,
            ));
        } else {
            lemma_floor_in_text(chunk, n);
            let here = floors_text(chunk, n);
            let stored = stored_sections(chunk, m);
            if stored.len() > 0 {
                lemma_last_section_complete(chunk, m);
            } else {
                assert(stored =~= seq![]);
            }
            lemma_feed_header::<C>(floor, s, p, st, line);
            let opened = LayerState::<C> { sections: stored, floor: Some(floor as i32), rows: seq![] };
            assert(stored.len() > 0 ==> stored.drop_last().push(stored.last()) =~= stored);
            assert(feed::<C>(st, s, p, p + 9, line) == Ok::<LayerState<C>, LevelTextError>(opened));
            assert(feed_all::<C>(st, s, p, line) == feed_all::<C>(opened, s, p + 10, line + 1));
            assert(opened.rows =~= floor_rows(chunk, floor).take(0));
            lemma_feed_rows(chunk, floor, s, p + 10, opened, line + 1);
            let done = LayerState::<C> {
                sections: stored,
                floor: Some(floor as i32),
                rows: floor_rows(chunk, floor),
            };
            let l = choose|l: int|
                feed_all::<C>(opened, s, p + 10 + 384 * opened.rows.len(), line + 1)
                    == #[trigger] feed_all::<C>(done, s, p + 49162, l);
            assert(stored_sections(chunk, n).drop_last() =~= stored);
            assert(state_after(chunk, n) == done);
            assert(feed_all::<C>(init, s, 0, 1) == feed_all::<C>(
                state_after(chunk, n),
                s,
                here.len() as int,
                l,
            ));
        }
    }
}

proof fn lemma_last_section_complete<C: LayerCell>(chunk: HypermapChunk<C>, n: nat)
    requires
        stored_sections(chunk, n).len() > 0,
    ensures
        stored_sections(chunk, n).last().1.len() == 128,
    decreases n,
{
    if floor_blank(chunk, n - 1) {
        lemma_last_section_complete(chunk, (n - 1) as nat);
    }
}

/// Reading a chunk's text gives back the sections of its floors that are not blank.
pub proof fn text_reads_back<C: LayerCell>(chunk: HypermapChunk<C>)
    requires
        layer_storable(chunk),
    ensures
        parse_layer::<C>(floors_text(chunk, 10)) == Ok::<_, LevelTextError>(
            stored_sections(chunk, 10),
        ),
{
    lemma_feed_floors(chunk, 10);
    let s = floors_text(chunk, 10);
    let st = state_after(chunk, 10);
    let stored = stored_sections(chunk, 10);
    let init = LayerState::<C> { sections: seq![], floor: None, rows: seq![] };
    let l = choose|l: int|
        feed_all::<C>(init, s, 0, 1) == #[trigger] feed_all::<C>(st, s, s.len() as int, l);
    assert(feed_all::<C>(st, s, s.len() as int, l) == Ok::<LayerState<C>, LevelTextError>(st));
    if stored.len() > 0 {
        lemma_last_section_complete(chunk, 10);
        assert(stored.drop_last().push(stored.last()) =~= stored);
    } else {
        assert(stored =~= seq![]);
    }
}

/// Laying the sections of a chunk's text over blank cells gives back every cell of the
/// first `n` floors.
proof fn lemma_sections_give_back<C: LayerCell>(
    chunk: HypermapChunk<C>,
    n: nat,
    l: LocalCoord,
    floor: int,
)
    requires
        n <= 10,
        l.in_chunk(),
        0 <= floor,
    ensures
        section_value(stored_sections(chunk, n), l, floor, C::blank_value()) == if floor < n {
            chunk.at(l, floor)
        } else {
            C::blank_value()
        },
    decreases n,
{
    if n > 0 {
        lemma_sections_give_back(chunk, (n - 1) as nat, l, floor);
        let stored = stored_sections(chunk, n);
        if floor_blank(chunk, n - 1) {
            if floor == n - 1 {
                assert(chunk.at(l, floor) == C::blank_value());
            }
        } else {
            assert(stored.drop_last() =~= stored_sections(chunk, (n - 1) as nat));
            assert(local(l.x as int, l.y as int) == l);
            assert(floor_rows(chunk, n - 1)[l.y as int][l.x as int] == chunk.at(l, n - 1));
        }
    }
}

/// A text gives back the chunk that it was written from: its sections laid over blank
/// cells are the chunk's cells on every floor.
pub proof fn decoded_text_is_the_chunk<C: LayerCell>(
    chunk: HypermapChunk<C>,
    l: LocalCoord,
    floor: int,
)
    requires
        layer_storable(chunk),
        l.in_chunk(),
        floor_in_range(floor),
    ensures
        parse_layer::<C>(floors_text(chunk, 10)) is Ok,
        section_value(
            parse_layer::<C>(floors_text(chunk, 10))->Ok_0,
            l,
            floor,
            C::blank_value(),
        ) == chunk.at(l, floor),
{
    text_reads_back(chunk);
    lemma_sections_give_back(chunk, 10, l, floor);
}

/// A row of text holds the cells of its row from left to right: three characters per cell, the
/// cell's token and a space between.
pub proof fn tokens_stand_in_their_columns<C: LayerCell>(
    chunk: HypermapChunk<C>,
    floor: int,
    l: LocalCoord,
)
    requires
        l.in_chunk(),
        layer_storable(chunk),
        floor_in_range(floor),
        !floor_blank(chunk, floor),
    ensures
        row_text(chunk, floor, l.y as int, 128).len() == 383,
        row_text(chunk, floor, l.y as int, 128)[3 * l.x as int] == chunk.at(l, floor).token()[0],
        row_text(chunk, floor, l.y as int, 128)[3 * l.x + 1] == chunk.at(l, floor).token()[1],
        l.x < 127 ==> row_text(chunk, floor, l.y as int, 128)[3 * l.x + 2] == ' ',
{
    assert forall|x: int| 0 <= x < 128 implies (#[trigger] chunk.at(
        local(x, l.y as int),
        floor,
    )).storable() by {
        assert(local(x, l.y as int).in_chunk());
    }
    lemma_row_chars(chunk, floor, l.y as int, 128);
    assert(local(l.x as int, l.y as int) == l);
}

/// The last section of a floor counts: a place shows what the last section of its floor says,
/// row by row and column by column, or what was there before where no section names its floor.
pub proof fn last_sections_count<C>(
    sections: Seq<(i32, Seq<Seq<C>>)>,
    l: LocalCoord,
    floor: int,
    base: C,
    i: int,
)
    ensures
        (0 <= i < sections.len() && sections[i].0 == floor && forall|j: int|
            i < j < sections.len() ==> (#[trigger] sections[j]).0 != floor) ==> section_value(
            sections,
            l,
            floor,
            base,
        ) == sections[i].1[l.y as int][l.x as int],
        (forall|j: int| 0 <= j < sections.len() ==> (#[trigger] sections[j]).0 != floor)
            ==> section_value(sections, l, floor, base) == base,
    decreases sections.len(),
{
    if sections.len() > 0 {
        let rest = sections.drop_last();
        last_sections_count(rest, l, floor, base, i);
        assert(sections[sections.len() - 1] == sections.last());
        if 0 <= i < sections.len() && sections[i].0 == floor && forall|j: int|
            i < j < sections.len() ==> (#[trigger] sections[j]).0 != floor {
            if i < rest.len() {
                assert(rest[i] == sections[i]);
                assert forall|j: int| i < j < rest.len() implies (#[trigger] rest[j]).0 != floor by {
                    assert(sections[j].0 != floor);
                }
            }
        }
        if forall|j: int| 0 <= j < sections.len() ==> (#[trigger] sections[j]).0 != floor {
            assert forall|j: int| 0 <= j < rest.len() implies (#[trigger] rest[j]).0 != floor by {
                assert(sections[j].0 != floor);
            }
        }
    }
}

} // verus!
