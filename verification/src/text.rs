//! Text primitives of the level format: white space, lines, tokens and decimal numbers.

use vstd::prelude::*;
use vstd::string::*;

verus! {

/// Unicode white space.
pub open spec fn is_space(c: char) -> bool {
    ('\u{9}' <= c && c <= '\u{d}') || c == ' ' || c == '\u{85}' || c == '\u{a0}' || c == '\u{1680}'
        || ('\u{2000}' <= c && c <= '\u{200a}') || c == '\u{2028}' || c == '\u{2029}' || c
        == '\u{202f}' || c == '\u{205f}' || c == '\u{3000}'
}

pub fn space(c: char) -> (yes: bool)
    ensures
        yes == is_space(c),
{
    ('\u{9}' <= c && c <= '\u{d}') || c == ' ' || c == '\u{85}' || c == '\u{a0}' || c == '\u{1680}'
        || ('\u{2000}' <= c && c <= '\u{200a}') || c == '\u{2028}' || c == '\u{2029}' || c
        == '\u{202f}' || c == '\u{205f}' || c == '\u{3000}'
}

/// The characters of a string.
pub fn chars_of(s: &str) -> (out: Vec<char>)
    ensures
        out@ == s@,
{
    let mut out: Vec<char> = Vec::new();
    for c in it: s.chars()
        invariant
            out@ == it.seq().take(it.index() as int),
            it.seq() == s@,
    {
        out.push(c);
        assert(out@ =~= it.seq().take(it.index() as int + 1));
    }
    assert(out@ =~= s@);
    out
}

/// Index of the line break at or after `from`, or the end of the text.
pub open spec fn line_end(s: Seq<char>, from: int) -> int
    decreases s.len() - from,
{
    if from >= s.len() {
        s.len() as int
    } else if s[from] == '\n' {
        from
    } else {
        line_end(s, from + 1)
    }
}

/// Whether two strings have the same characters.
pub fn same_text(a: &str, b: &str) -> (same: bool)
    ensures
        same == (a@ == b@),
{
    let left = chars_of(a);
    let right = chars_of(b);
    if left.len() != right.len() {
        return false;
    }
    let mut i: usize = 0;
    while i < left.len()
        invariant
            i <= left@.len(),
            left@ == a@,
            right@ == b@,
            left@.len() == right@.len(),
            forall|j: int| 0 <= j < i ==> left@[j] == right@[j],
        decreases left@.len() - i,
    {
        if left[i] != right[i] {
            return false;
        }
        i += 1;
    }
    assert(a@ =~= b@);
    true
}

/// Index of the first character of `s[from..to]` that is not white space, or `to`.
pub open spec fn skip_space(s: Seq<char>, from: int, to: int) -> int
    decreases to - from,
{
    if from >= to {
        to
    } else if is_space(s[from]) {
        skip_space(s, from + 1, to)
    } else {
        from
    }
}

/// End of `s[from..to]` without its trailing white space.
pub open spec fn trim_end(s: Seq<char>, from: int, to: int) -> int
    decreases to - from,
{
    if from >= to {
        from
    } else if is_space(s[to - 1]) {
        trim_end(s, from, to - 1)
    } else {
        to
    }
}

/// Index of the first white space of `s[from..to]`, or `to`.
pub open spec fn token_end(s: Seq<char>, from: int, to: int) -> int
    decreases to - from,
{
    if from >= to {
        to
    } else if is_space(s[from]) {
        from
    } else {
        token_end(s, from + 1, to)
    }
}

/// The white-space separated tokens of `s[from..to]`.
pub open spec fn tokens(s: Seq<char>, from: int, to: int) -> Seq<Seq<char>>
    decreases to - from,
{
    let a = skip_space(s, from, to);
    if from >= to || a >= to || a < from {
        seq![]
    } else {
        let b = token_end(s, a, to);
        if b <= a || b > to {
            seq![]
        } else {
            seq![s.subrange(a, b)] + tokens(s, b, to)
        }
    }
}

pub proof fn lemma_skip_space(s: Seq<char>, from: int, to: int)
    requires
        from <= to,
    ensures
        from <= skip_space(s, from, to) <= to,
        skip_space(s, from, to) < to ==> !is_space(s[skip_space(s, from, to)]),
        forall|i: int| from <= i < skip_space(s, from, to) ==> is_space(#[trigger] s[i]),
    decreases to - from,
{
    if from < to && is_space(s[from]) {
        lemma_skip_space(s, from + 1, to);
    }
}

pub proof fn lemma_token_end(s: Seq<char>, from: int, to: int)
    requires
        from <= to,
    ensures
        from <= token_end(s, from, to) <= to,
        token_end(s, from, to) < to ==> is_space(s[token_end(s, from, to)]),
        forall|i: int| from <= i < token_end(s, from, to) ==> !is_space(#[trigger] s[i]),
    decreases to - from,
{
    if from < to && !is_space(s[from]) {
        lemma_token_end(s, from + 1, to);
    }
}

pub proof fn lemma_trim_end(s: Seq<char>, from: int, to: int)
    requires
        from <= to,
    ensures
        from <= trim_end(s, from, to) <= to,
        trim_end(s, from, to) > from ==> !is_space(s[trim_end(s, from, to) - 1]),
        forall|i: int| trim_end(s, from, to) <= i < to ==> is_space(#[trigger] s[i]),
    decreases to - from,
{
    if from < to && is_space(s[to - 1]) {
        lemma_trim_end(s, from, to - 1);
    }
}

pub proof fn lemma_line_end(s: Seq<char>, from: int)
    requires
        0 <= from <= s.len(),
    ensures
        from <= line_end(s, from) <= s.len(),
        line_end(s, from) < s.len() ==> s[line_end(s, from)] == '\n',
        forall|i: int| from <= i < line_end(s, from) ==> #[trigger] s[i] != '\n',
    decreases s.len() - from,
{
    if from < s.len() && s[from] != '\n' {
        lemma_line_end(s, from + 1);
    }
}

pub fn find_line_end(s: &Vec<char>, from: usize) -> (end: usize)
    requires
        from <= s@.len(),
    ensures
        end == line_end(s@, from as int),
        from <= end <= s@.len(),
{
    let mut i: usize = from;
    while i < s.len() && s[i] != '\n'
        invariant
            from <= i <= s@.len(),
            line_end(s@, from as int) == line_end(s@, i as int),
        decreases s@.len() - i,
    {
        i += 1;
    }
    i
}

pub fn find_skip_space(s: &Vec<char>, from: usize, to: usize) -> (at: usize)
    requires
        from <= to <= s@.len(),
    ensures
        at == skip_space(s@, from as int, to as int),
        from <= at <= to,
{
    let mut i: usize = from;
    while i < to && space(s[i])
        invariant
            from <= i <= to <= s@.len(),
            skip_space(s@, from as int, to as int) == skip_space(s@, i as int, to as int),
        decreases to - i,
    {
        i += 1;
    }
    i
}

pub fn find_trim_end(s: &Vec<char>, from: usize, to: usize) -> (at: usize)
    requires
        from <= to <= s@.len(),
    ensures
        at == trim_end(s@, from as int, to as int),
        from <= at <= to,
{
    let mut i: usize = to;
    while i > from && space(s[i - 1])
        invariant
            from <= i <= to <= s@.len(),
            trim_end(s@, from as int, to as int) == trim_end(s@, from as int, i as int),
        decreases i,
    {
        i -= 1;
    }
    i
}

pub fn find_token_end(s: &Vec<char>, from: usize, to: usize) -> (at: usize)
    requires
        from <= to <= s@.len(),
    ensures
        at == token_end(s@, from as int, to as int),
        from <= at <= to,
{
    let mut i: usize = from;
    while i < to && !space(s[i])
        invariant
            from <= i <= to <= s@.len(),
            token_end(s@, from as int, to as int) == token_end(s@, i as int, to as int),
        decreases to - i,
    {
        i += 1;
    }
    i
}

/// Start and end indices of the tokens of `s[from..to]`.
pub fn find_tokens(s: &Vec<char>, from: usize, to: usize) -> (out: Vec<(usize, usize)>)
    requires
        from <= to <= s@.len(),
    ensures
        out@.len() == tokens(s@, from as int, to as int).len(),
        forall|k: int|
            0 <= k < out@.len() ==> {
                let (a, b) = #[trigger] out@[k];
                a < b <= to && s@.subrange(a as int, b as int) == tokens(
                    s@,
                    from as int,
                    to as int,
                )[k]
            },
{
    let mut out: Vec<(usize, usize)> = Vec::new();
    let mut at: usize = from;
    let ghost all = tokens(s@, from as int, to as int);
    loop
        invariant
            from <= at <= to <= s@.len(),
            all == tokens(s@, from as int, to as int),
            out@.len() <= all.len(),
            all.skip(out@.len() as int) == tokens(s@, at as int, to as int),
            forall|k: int|
                0 <= k < out@.len() ==> {
                    let (a, b) = #[trigger] out@[k];
                    a < b <= to && s@.subrange(a as int, b as int) == all[k]
                },
        decreases to - at,
    {
        let a: usize = find_skip_space(s, at, to);
        proof {
            lemma_skip_space(s@, at as int, to as int);
        }
        if a >= to {
            assert(all.skip(out@.len() as int).len() == 0);
            return out;
        }
        let b: usize = find_token_end(s, a, to);
        proof {
            lemma_token_end(s@, a as int, to as int);
            let rest = tokens(s@, at as int, to as int);
            assert(rest == seq![s@.subrange(a as int, b as int)] + tokens(s@, b as int, to as int));
            assert(rest[0] == s@.subrange(a as int, b as int));
            assert(rest[0] == all[out@.len() as int]);
            assert(all.skip(out@.len() as int + 1) =~= rest.skip(1));
            assert(rest.skip(1) =~= tokens(s@, b as int, to as int));
        }
        out.push((a, b));
        at = b;
    }
}

/// Value of a run of decimal digits, or `None` where another character occurs.
pub open spec fn digits_value(s: Seq<char>) -> Option<int>
    decreases s.len(),
{
    if s.len() == 0 {
        Some(0)
    } else {
        let c = s.last();
        match digits_value(s.drop_last()) {
            Some(v) if '0' <= c && c <= '9' => Some(v * 10 + (c as int - '0' as int)),
            _ => None,
        }
    }
}

/// A signed decimal number that fits 32 bits: an optional sign and at least one digit.
pub open spec fn parse_int(s: Seq<char>) -> Option<int> {
    let signed = s.len() > 0 && (s[0] == '+' || s[0] == '-');
    let body = if signed {
        s.skip(1)
    } else {
        s
    };
    if body.len() == 0 {
        None
    } else {
        match digits_value(body) {
            Some(v) => {
                let n = if s[0] == '-' {
                    -v
                } else {
                    v
                };
                if i32::MIN <= n <= i32::MAX {
                    Some(n)
                } else {
                    None
                }
            },
            None => None,
        }
    }
}

proof fn lemma_digits_prefix(s: Seq<char>, k: int)
    requires
        0 <= k <= s.len(),
    ensures
        digits_value(s) is Some ==> digits_value(s.take(k)) is Some && digits_value(
            s.take(k),
        )->0 <= digits_value(s)->0,
        digits_value(s.take(k)) is Some ==> digits_value(s.take(k))->0 >= 0,
    decreases s.len(),
{
    if k == s.len() {
        assert(s.take(k) =~= s);
        if s.len() > 0 {
            assert(s.drop_last() =~= s.take(s.len() - 1));
            lemma_digits_prefix(s.drop_last(), s.len() - 1);
            assert(s.drop_last().take(s.len() - 1) =~= s.drop_last());
        }
    } else {
        lemma_digits_prefix(s.drop_last(), k);
        assert(s.drop_last().take(k) =~= s.take(k));
    }
}

/// Reads `s[from..to]` as a signed decimal number.
pub fn read_int(s: &Vec<char>, from: usize, to: usize) -> (n: Option<i32>)
    requires
        from <= to <= s@.len(),
    ensures
        match n {
            Some(v) => parse_int(s@.subrange(from as int, to as int)) == Some(v as int),
            None => parse_int(s@.subrange(from as int, to as int)) is None,
        },
{
    let ghost whole = s@.subrange(from as int, to as int);
    if from >= to {
        return None;
    }
    let negative: bool = s[from] == '-';
    let start: usize = if negative || s[from] == '+' { from + 1 } else { from };
    let ghost body = s@.subrange(start as int, to as int);
    proof {
        assert(whole[0] == s@[from as int]);
        if start > from {
            assert(whole.skip(1) =~= body);
        } else {
            assert(whole =~= body);
        }
    }
    if start >= to {
        return None;
    }
    let mut value: i64 = 0;
    let mut i: usize = start;
    while i < to
        invariant
            start <= i <= to <= s@.len(),
            body == s@.subrange(start as int, to as int),
            digits_value(body.take(i - start)) == Some(value as int),
            0 <= value <= 0x8000_0000,
            whole == s@.subrange(from as int, to as int),
            parse_int(whole) == (match digits_value(body) {
                Some(v) => {
                    let n = if negative {
                        -v
                    } else {
                        v
                    };
                    if i32::MIN <= n <= i32::MAX {
                        Some(n)
                    } else {
                        None
                    }
                },
                None => None,
            }),
        decreases to - i,
    {
        let c: char = s[i];
        let ghost done = body.take(i - start);
        let ghost next = body.take(i + 1 - start);
        proof {
            assert(next.drop_last() =~= done);
            assert(next.last() == c);
            lemma_digits_prefix(body, i + 1 - start);
        }
        if !('0' <= c && c <= '9') {
            return None;
        }
        value = value * 10 + (c as u32 - '0' as u32) as i64;
        if value > 0x8000_0000 {
            return None;
        }
        i += 1;
    }
    assert(body.take(to - start) =~= body);
    if negative {
        Some((-value) as i32)
    } else if value > 0x7fff_ffff {
        None
    } else {
        Some(value as i32)
    }
}

/// Decimal digits of a natural number.
pub open spec fn decimal_nat(n: nat) -> Seq<char>
    decreases n,
{
    let digit = ((n % 10) as int + '0' as int) as char;
    if n < 10 {
        seq![digit]
    } else {
        decimal_nat(n / 10).push(digit)
    }
}

/// Decimal form of an integer.
pub open spec fn decimal(n: int) -> Seq<char> {
    if n < 0 {
        seq!['-'] + decimal_nat((-n) as nat)
    } else {
        decimal_nat(n as nat)
    }
}

/// The decimal digits of a number read back as the number.
pub proof fn decimal_reads_back(n: nat)
    ensures
        digits_value(decimal_nat(n)) == Some(n as int),
    decreases n,
{
    let digit = ((n % 10) as int + '0' as int) as char;
    let s = decimal_nat(n);
    assert(s.last() == digit);
    if n < 10 {
        assert(s.drop_last() =~= Seq::empty());
        assert(digits_value(s.drop_last()) == Some(0int));
    } else {
        decimal_reads_back(n / 10);
        assert(s.drop_last() =~= decimal_nat(n / 10));
    }
}

/// Leading zeros do not change the value of a run of digits.
pub proof fn leading_zeros_do_not_count(zeros: Seq<char>, s: Seq<char>)
    requires
        forall|i: int| 0 <= i < zeros.len() ==> zeros[i] == '0',
    ensures
        digits_value(zeros + s) == digits_value(s),
    decreases zeros.len() + s.len(),
{
    if s.len() == 0 {
        assert(zeros + s =~= zeros);
        if zeros.len() > 0 {
            leading_zeros_do_not_count(zeros.drop_last(), s);
            assert(zeros.drop_last() + s =~= zeros.drop_last());
        }
    } else {
        leading_zeros_do_not_count(zeros, s.drop_last());
        assert((zeros + s).drop_last() =~= zeros + s.drop_last());
        assert((zeros + s).last() == s.last());
    }
}

/// One decimal digit as text.
fn digit_text(d: u32) -> (text: &'static str)
    requires
        d < 10,
    ensures
        text@ == seq![(d as int + '0' as int) as char],
{
    proof {
        reveal_strlit("0");
        reveal_strlit("1");
        reveal_strlit("2");
        reveal_strlit("3");
        reveal_strlit("4");
        reveal_strlit("5");
        reveal_strlit("6");
        reveal_strlit("7");
        reveal_strlit("8");
        reveal_strlit("9");
    }
    let text = if d == 0 {
        "0"
    } else if d == 1 {
        "1"
    } else if d == 2 {
        "2"
    } else if d == 3 {
        "3"
    } else if d == 4 {
        "4"
    } else if d == 5 {
        "5"
    } else if d == 6 {
        "6"
    } else if d == 7 {
        "7"
    } else if d == 8 {
        "8"
    } else {
        "9"
    };
    assert(text@ =~= seq![(d as int + '0' as int) as char]);
    text
}

/// Appends the decimal digits of a long number.
pub fn push_long(out: &mut String, n: u64)
    ensures
        final(out)@ == old(out)@ + decimal_nat(n as nat),
    decreases n,
{
    if n >= 10 {
        push_long(out, n / 10);
    }
    out.append(digit_text((n % 10) as u32));
    assert(out@ =~= old(out)@ + decimal_nat(n as nat));
}

/// Appends the decimal digits of `n`.
pub fn push_unsigned(out: &mut String, n: u32)
    ensures
        final(out)@ == old(out)@ + decimal_nat(n as nat),
{
    push_long(out, n as u64)
}

/// Appends the decimal form of `n`.
pub fn push_decimal(out: &mut String, n: i32)
    ensures
        final(out)@ == old(out)@ + decimal(n as int),
{
    if n < 0 {
        proof {
            reveal_strlit("-");
        }
        out.append("-");
        assert(out@ =~= old(out)@ + seq!['-']);
        push_long(out, (-(n as i64)) as u64);
        assert(out@ =~= old(out)@ + decimal(n as int));
    } else {
        push_long(out, n as u64);
    }
}

} // verus!
