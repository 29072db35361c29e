//! Reading a cost matrix from text: one row per line, entries separated by
//! white space, blank lines skipped.
use vstd::prelude::*;

verus! {

/// Whether `c` counts as white space for `char::is_whitespace`.
pub uninterp spec fn white_space(c: char) -> bool;

/// `char::is_whitespace`. Its answer is taken as the meaning of
/// `white_space`; nothing more is claimed of it.
#[verifier::external_body]
fn is_white_space(c: char) -> (b: bool)
    ensures
        b == white_space(c),
{
    c.is_whitespace()
}

/// The characters of `text`, one by one.
fn characters(text: &str) -> (chars: Vec<char>)
    ensures
        chars@ == text@,
{
    broadcast use vstd::string::axiom_spec_iter;

    let mut chars: Vec<char> = Vec::new();
    for c in it: text.chars()
        invariant
            it.seq() == text@,
            chars@ == it.seq().take(it.index()),
    {
        chars.push(c);
        assert(chars@ =~= it.seq().take(it.index() + 1));
    }
    assert(chars@ =~= text@);
    chars
}

/// What is wrong with a text that does not hold a square matrix. Lines and
/// words are counted from 0.
#[derive(Clone, Copy, Debug, PartialEq, Eq, Structural)]
pub enum MatrixError {
    /// A word of a line is not an integer that fits in an `i32`.
    BadInteger { line: usize, word: usize },
    /// A line has another number of entries than the rows before it.
    RaggedRow { line: usize, found: usize, expected: usize },
    /// The text holds no entry at all.
    NoRows,
    /// The rows are of one length, which is not their number.
    NotSquare { rows: usize, cols: usize },
}

/// Whether `c` is one of the decimal digits `0` to `9`.
pub open spec fn is_digit(c: char) -> bool {
    '0' <= c <= '9'
}

/// Whether `w` holds decimal digits only.
pub open spec fn all_digits(w: Seq<char>) -> bool {
    forall|i: int| 0 <= i < w.len() ==> is_digit(#[trigger] w[i])
}

/// The number that the decimal digits of `w` write.
pub open spec fn digits_value(w: Seq<char>) -> nat
    decreases w.len(),
{
    if w.len() == 0 {
        0
    } else {
        digits_value(w.drop_last()) * 10 + (w.last() as nat - '0' as nat) as nat
    }
}

/// The integer that `w` writes: an optional sign and then one decimal digit
/// or more, for a value that an `i32` can hold.
pub open spec fn word_value(w: Seq<char>) -> Option<i32> {
    let signed = w.len() > 0 && (w[0] == '-' || w[0] == '+');
    let digits = if signed {
        w.skip(1)
    } else {
        w
    };
    let value = if w.len() > 0 && w[0] == '-' {
        -(digits_value(digits) as int)
    } else {
        digits_value(digits) as int
    };
    if digits.len() > 0 && all_digits(digits) && i32::MIN <= value <= i32::MAX {
        Some(value as i32)
    } else {
        None
    }
}

/// Where the line that holds position `from` ends: at the next line feed,
/// or at the end of the text.
pub open spec fn line_end(t: Seq<char>, from: int) -> int
    decreases t.len() - from,
{
    if 0 <= from < t.len() && t[from] != '\n' {
        line_end(t, from + 1)
    } else {
        from
    }
}

/// The first position from `from` on and before `end` that holds no white
/// space; `end` where there is none.
pub open spec fn word_start(t: Seq<char>, from: int, end: int) -> int
    decreases end - from,
{
    if 0 <= from < end && white_space(t[from]) {
        word_start(t, from + 1, end)
    } else {
        from
    }
}

/// The first position from `from` on and before `end` that holds white
/// space; `end` where there is none.
pub open spec fn word_end(t: Seq<char>, from: int, end: int) -> int
    decreases end - from,
{
    if 0 <= from < end && !white_space(t[from]) {
        word_end(t, from + 1, end)
    } else {
        from
    }
}

/// `word_start` stays between `from` and `end`, and what it finds before
/// `end` is no white space.
pub proof fn lemma_word_start(t: Seq<char>, from: int, end: int)
    requires
        0 <= from <= end <= t.len(),
    ensures
        from <= word_start(t, from, end) <= end,
        word_start(t, from, end) < end ==> !white_space(t[word_start(t, from, end)]),
    decreases end - from,
{
    if from < end && white_space(t[from]) {
        lemma_word_start(t, from + 1, end);
    }
}

/// `word_end` stays between `from` and `end`, and lies after `from` where
/// a word begins there.
pub proof fn lemma_word_end(t: Seq<char>, from: int, end: int)
    requires
        0 <= from <= end <= t.len(),
    ensures
        from <= word_end(t, from, end) <= end,
        from < end && !white_space(t[from]) ==> from < word_end(t, from, end),
    decreases end - from,
{
    if from < end && !white_space(t[from]) {
        lemma_word_end(t, from + 1, end);
    }
}

/// `line_end` stays between `from` and the end of the text.
pub proof fn lemma_line_end(t: Seq<char>, from: int)
    requires
        0 <= from <= t.len(),
    ensures
        from <= line_end(t, from) <= t.len(),
    decreases t.len() - from,
{
    if from < t.len() && t[from] != '\n' {
        lemma_line_end(t, from + 1);
    }
}

/// The entries that the words between `from` and `end` write, or the index
/// of the first word among them that writes none.
pub open spec fn row_of(t: Seq<char>, from: int, end: int) -> Result<Seq<i32>, nat>
    decreases end - from,
{
    if 0 <= from <= end <= t.len() {
        let a = word_start(t, from, end);
        let b = word_end(t, a, end);
        if a >= end {
            Ok(Seq::empty())
        } else {
            proof {
                lemma_word_start(t, from, end);
                lemma_word_end(t, a, end);
            }
            match word_value(t.subrange(a, b)) {
                None => Err(0nat),
                Some(x) => match row_of(t, b, end) {
                    Ok(rest) => Ok(seq![x] + rest),
                    Err(k) => Err(k + 1),
                },
            }
        }
    } else {
        Ok(Seq::empty())
    }
}

/// The rows that the lines from position `from` on write, where `from`
/// begins the line of index `line` and the rows before it have `width`
/// entries each; or what is wrong with the first line that is wrong. Lines
/// without a word write no row.
pub open spec fn rows_from(t: Seq<char>, from: int, line: nat, width: Option<nat>) -> Result<
    Seq<Seq<i32>>,
    MatrixError,
>
    decreases t.len() - from,
{
    if 0 <= from <= t.len() {
        let end = line_end(t, from);
        match row_of(t, from, end) {
            Err(k) => Err(MatrixError::BadInteger { line: line as usize, word: k as usize }),
            Ok(row) => {
                if row.len() > 0 && width is Some && row.len() != width->0 {
                    Err(
                        MatrixError::RaggedRow {
                            line: line as usize,
                            found: row.len() as usize,
                            expected: width->0 as usize,
                        },
                    )
                } else {
                    let rest = if end >= t.len() {
                        Ok(Seq::empty())
                    } else {
                        proof {
                            lemma_line_end(t, from);
                        }
                        rows_from(
                            t,
                            end + 1,
                            line + 1,
                            if row.len() > 0 {
                                Some(row.len())
                            } else {
                                width
                            },
                        )
                    };
                    match rest {
                        Err(e) => Err(e),
                        Ok(rows) => Ok(
                            if row.len() > 0 {
                                seq![row] + rows
                            } else {
                                rows
                            },
                        ),
                    }
                }
            },
        }
    } else {
        Ok(Seq::empty())
    }
}

/// The matrix that `t` writes, or what is wrong with it.
pub open spec fn parsed(t: Seq<char>) -> Result<Seq<Seq<i32>>, MatrixError> {
    match rows_from(t, 0, 0, None) {
        Err(e) => Err(e),
        Ok(rows) => if rows.len() == 0 {
            Err(MatrixError::NoRows)
        } else if rows.len() != rows[0].len() {
            Err(MatrixError::NotSquare { rows: rows.len() as usize, cols: rows[0].len() as usize })
        } else {
            Ok(rows)
        },
    }
}

/// What a returned value says, with the matrix as a sequence of rows.
pub open spec fn reading(r: Result<Vec<Vec<i32>>, MatrixError>) -> Result<
    Seq<Seq<i32>>,
    MatrixError,
> {
    match r {
        Ok(matrix) => Ok(matrix.deep_view()),
        Err(e) => Err(e),
    }
}

/// A longer run of digits writes no smaller number.
proof fn lemma_digits_grow(w: Seq<char>, k: int)
    requires
        0 <= k <= w.len(),
    ensures
        digits_value(w.take(k)) <= digits_value(w),
    decreases w.len(),
{
    if k < w.len() {
        assert(w.drop_last().take(k) =~= w.take(k));
        lemma_digits_grow(w.drop_last(), k);
    } else {
        assert(w.take(k) =~= w);
    }
}

/// The value of `c` as a decimal digit.
fn digit(c: char) -> (d: Option<i64>)
    ensures
        is_digit(c) <==> d is Some,
        d is Some ==> 0 <= d->0 <= 9 && d->0 == c as nat - '0' as nat,
{
    if c >= '0' && c <= '9' {
        Some((c as u32 - '0' as u32) as i64)
    } else {
        None
    }
}

/// Reads the word between `from` and `to` as an integer.
fn parse_word(chars: &Vec<char>, from: usize, to: usize) -> (value: Option<i32>)
    requires
        from < to <= chars.len(),
    ensures
        value == word_value(chars@.subrange(from as int, to as int)),
{
    let ghost w = chars@.subrange(from as int, to as int);
    let negative = chars[from] == '-';
    let start = if negative || chars[from] == '+' {
        from + 1
    } else {
        from
    };
    let ghost digits = chars@.subrange(start as int, to as int);
    proof {
        assert(w[0] == chars[from as int]);
        if start > from {
            assert(w.skip(1) =~= digits);
        }
    }
    if start == to {
        return None;
    }
    let mut total: i64 = 0;
    let mut i = start;
    while i < to
        invariant
            start <= i <= to <= chars.len(),
            w == chars@.subrange(from as int, to as int),
            digits == chars@.subrange(start as int, to as int),
            digits == (if w[0] == '-' || w[0] == '+' {
                w.skip(1)
            } else {
                w
            }),
            negative == (w[0] == '-'),
            all_digits(digits.take(i - start)),
            total == digits_value(digits.take(i - start)),
            0 <= total <= 0x8000_0000,
        decreases to - i,
    {
        let ghost before = digits.take(i - start);
        let ghost after = digits.take(i - start + 1);
        proof {
            assert(after.drop_last() =~= before);
            assert(after.last() == chars[i as int]);
            assert(digits[i - start] == chars[i as int]);
        }
        match digit(chars[i]) {
            None => {
                assert(!is_digit(digits[i - start]));
                return None;
            },
            Some(d) => {
                total = total * 10 + d;
                proof {
                    assert forall|j: int| 0 <= j < after.len() implies is_digit(
                        #[trigger] after[j],
                    ) by {
                        if j < before.len() {
                            assert(after[j] == before[j]);
                        }
                    }
                }
                if total > 0x8000_0000 {
                    proof {
                        lemma_digits_grow(digits, i - start + 1);
                        assert(digits_value(digits) > 0x8000_0000);
                    }
                    return None;
                }
                i += 1;
            },
        }
    }
    proof {
        assert(digits.take(i - start) =~= digits);
    }
    let v = if negative {
        -total
    } else {
        total
    };
    if v < -0x8000_0000 || v > 0x7fff_ffff {
        None
    } else {
        Some(v as i32)
    }
}

/// The row read so far, followed by what the rest of the line writes.
spec fn row_then(row: Seq<i32>, rest: Result<Seq<i32>, nat>) -> Result<Seq<i32>, nat> {
    match rest {
        Ok(more) => Ok(row + more),
        Err(k) => Err(row.len() + k),
    }
}

/// Reads the words between `from` and `end` as the entries of a row.
fn parse_row(chars: &Vec<char>, from: usize, end: usize) -> (row: Result<Vec<i32>, usize>)
    requires
        from <= end <= chars.len(),
    ensures
        match row {
            Ok(entries) => row_of(chars@, from as int, end as int) == Ok::<Seq<i32>, nat>(
                entries@,
            ),
            Err(k) => row_of(chars@, from as int, end as int) == Err::<Seq<i32>, nat>(k as nat),
        },
{
    let ghost t = chars@;
    let ghost whole = row_of(t, from as int, end as int);
    let mut entries: Vec<i32> = Vec::new();
    let mut pos = from;
    let mut done = false;
    proof {
        assert(Seq::<i32>::empty() + Seq::<i32>::empty() =~= Seq::<i32>::empty());
        match row_of(t, pos as int, end as int) {
            Ok(more) => {
                assert(entries@ + more =~= more);
            },
            Err(k) => {},
        }
    }
    while !done
        invariant
            t == chars@,
            from <= pos <= end <= chars.len(),
            entries.len() <= pos - from,
            whole == row_of(t, from as int, end as int),
            done ==> whole == Ok::<Seq<i32>, nat>(entries@),
            !done ==> whole == row_then(entries@, row_of(t, pos as int, end as int)),
        decreases
                (if done {
                    0int
                } else {
                    end - pos + 1
                }),
    {
        let mut a = pos;
        while a < end && is_white_space(chars[a])
            invariant
                t == chars@,
                pos <= a <= end <= chars.len(),
                word_start(t, pos as int, end as int) == word_start(t, a as int, end as int),
            decreases end - a,
        {
            a += 1;
        }
        assert(word_start(t, pos as int, end as int) == a);
        if a >= end {
            proof {
                assert(entries@ + Seq::<i32>::empty() =~= entries@);
            }
            done = true;
        } else {
            let mut b = a + 1;
            proof {
                assert(word_end(t, a as int, end as int) == word_end(t, b as int, end as int));
            }
            while b < end && !is_white_space(chars[b])
                invariant
                    t == chars@,
                    a < b <= end <= chars.len(),
                    word_end(t, a as int, end as int) == word_end(t, b as int, end as int),
                decreases end - b,
            {
                b += 1;
            }
            assert(word_end(t, a as int, end as int) == b);
            match parse_word(chars, a, b) {
                None => {
                    assert(row_of(t, pos as int, end as int) == Err::<Seq<i32>, nat>(0nat));
                    return Err(entries.len());
                },
                Some(x) => {
                    let ghost before = entries@;
                    entries.push(x);
                    proof {
                        match row_of(t, b as int, end as int) {
                            Ok(more) => {
                                assert(before + (seq![x] + more) =~= entries@ + more);
                            },
                            Err(k) => {},
                        }
                    }
                    pos = b;
                },
            }
        }
    }
    Ok(entries)
}

/// The rows read so far, followed by what the rest of the text writes.
spec fn rows_then(rows: Seq<Seq<i32>>, rest: Result<Seq<Seq<i32>>, MatrixError>) -> Result<
    Seq<Seq<i32>>,
    MatrixError,
> {
    match rest {
        Ok(more) => Ok(rows + more),
        Err(e) => Err(e),
    }
}

/// The width of the rows read so far, as a number.
spec fn as_width(width: Option<usize>) -> Option<nat> {
    match width {
        Some(w) => Some(w as nat),
        None => None,
    }
}

/// Reads a square matrix of integers from `text`. Each line with a word on
/// it is a row, and each word on it an entry. The first line that is wrong
/// is reported: a word that is no `i32`, or a row whose length differs from
/// the rows before it. A text without rows and a matrix that is not square
/// are reported once every line has been read.
pub fn parse_matrix(text: &str) -> (matrix: Result<Vec<Vec<i32>>, MatrixError>)
    ensures
        reading(matrix) == parsed(text@),
{
    let chars = characters(text);
    let ghost t = chars@;
    let ghost whole = rows_from(t, 0, 0, None);
    let mut rows: Vec<Vec<i32>> = Vec::new();
    let mut width: Option<usize> = None;
    let mut line: usize = 0;
    let mut pos: usize = 0;
    let mut done = false;
    proof {
        match rows_from(t, 0, 0, None) {
            Ok(more) => {
                assert(rows.deep_view() + more =~= more);
            },
            Err(e) => {},
        }
    }
    while !done
        invariant
            t == chars@,
            t == text@,
            whole == rows_from(t, 0, 0, None),
            pos <= chars.len(),
            line <= pos,
            width is Some <==> rows.len() > 0,
            width is Some ==> rows[0].len() == width->0,
            done ==> whole == Ok::<Seq<Seq<i32>>, MatrixError>(rows.deep_view()),
            !done ==> whole == rows_then(
                rows.deep_view(),
                rows_from(t, pos as int, line as nat, as_width(width)),
            ),
        decreases
                (if done {
                    0int
                } else {
                    chars.len() - pos + 1
                }),
    {
        let mut end = pos;
        while end < chars.len() && chars[end] != '\n'
            invariant
                t == chars@,
                pos <= end <= chars.len(),
                line_end(t, pos as int) == line_end(t, end as int),
            decreases chars.len() - end,
        {
            end += 1;
        }
        assert(line_end(t, pos as int) == end);
        let ghost before = rows.deep_view();
        let ghost here = rows_from(t, pos as int, line as nat, as_width(width));
        match parse_row(&chars, pos, end) {
            Err(k) => {
                assert(here == Err::<Seq<Seq<i32>>, MatrixError>(
                    MatrixError::BadInteger { line, word: k },
                ));
                return Err(MatrixError::BadInteger { line, word: k });
            },
            Ok(row) => {
                let ghost entries = row@;
                let ghost old_width = as_width(width);
                let ghost rest = if end >= chars.len() {
                    Ok(Seq::empty())
                } else {
                    rows_from(
                        t,
                        end + 1,
                        (line + 1) as nat,
                        if entries.len() > 0 {
                            Some(entries.len())
                        } else {
                            old_width
                        },
                    )
                };
                if row.len() > 0 {
                    match width {
                        Some(w) => {
                            if row.len() != w {
                                assert(here == Err::<Seq<Seq<i32>>, MatrixError>(
                                    MatrixError::RaggedRow { line, found: row.len(), expected: w },
                                ));
                                return Err(
                                    MatrixError::RaggedRow { line, found: row.len(), expected: w },
                                );
                            }
                        },
                        None => {
                            width = Some(row.len());
                        },
                    }
                    assert(row.deep_view() =~= entries);
                    rows.push(row);
                    proof {
                        assert(rows.deep_view() =~= before.push(entries));
                        assert(here == (match rest {
                            Err(e) => Err(e),
                            Ok(more) => Ok(seq![entries] + more),
                        }));
                        match rest {
                            Ok(more) => {
                                assert(before + (seq![entries] + more) =~= rows.deep_view() + more);
                            },
                            Err(e) => {},
                        }
                        assert(whole == rows_then(rows.deep_view(), rest));
                    }
                } else {
                    proof {
                        assert(here == rest);
                        assert(whole == rows_then(rows.deep_view(), rest));
                    }
                }
            },
        }
        if end >= chars.len() {
            proof {
                assert(rows.deep_view() + Seq::<Seq<i32>>::empty() =~= rows.deep_view());
            }
            done = true;
        } else {
            pos = end + 1;
            line += 1;
        }
    }
    if rows.len() == 0 {
        Err(MatrixError::NoRows)
    } else if rows.len() != rows[0].len() {
        Err(MatrixError::NotSquare { rows: rows.len(), cols: rows[0].len() })
    } else {
        Ok(rows)
    }
}

} // verus!
