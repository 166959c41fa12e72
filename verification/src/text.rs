use vstd::prelude::*;
use crate::graph::{matrix_view, Graph};
use crate::tour::{ascending, count_up};

verus! {

/// Whether `b` separates numbers within a line: a space, a tab, or one of
/// the other ASCII white space characters but the line feed.
pub open spec fn is_blank(b: u8) -> bool {
    b == 32 || b == 9 || b == 11 || b == 12 || b == 13
}

/// Whether `b` is a decimal digit.
pub open spec fn is_digit(b: u8) -> bool {
    48 <= b <= 57
}

/// The lines of a text: what stands between its line feeds.
pub open spec fn lines(s: Seq<u8>) -> Seq<Seq<u8>>
    decreases s.len(),
{
    if s.len() == 0 {
        seq![Seq::<u8>::empty()]
    } else if s.last() == 10 {
        lines(s.drop_last()).push(Seq::<u8>::empty())
    } else {
        let front = lines(s.drop_last());
        front.update(front.len() - 1, front.last().push(s.last()))
    }
}

/// The words of a line: its longest runs of bytes that are not blank.
pub open spec fn words(s: Seq<u8>) -> Seq<Seq<u8>>
    decreases s.len(),
{
    if s.len() == 0 {
        Seq::<Seq<u8>>::empty()
    } else if is_blank(s.last()) {
        words(s.drop_last())
    } else if s.len() >= 2 && !is_blank(s[s.len() - 2]) {
        let front = words(s.drop_last());
        front.update(front.len() - 1, front.last().push(s.last()))
    } else {
        words(s.drop_last()).push(seq![s.last()])
    }
}

/// The number that the decimal digits `d` write.
pub open spec fn decimal(d: Seq<u8>) -> nat
    decreases d.len(),
{
    if d.len() == 0 {
        0
    } else {
        decimal(d.drop_last()) * 10 + (d.last() - 48) as nat
    }
}

/// The digits of a word: the word without the plus sign that may stand
/// before them.
pub open spec fn digits_of(d: Seq<u8>) -> Seq<u8> {
    if d.len() > 0 && d[0] == 43 {
        d.skip(1)
    } else {
        d
    }
}

/// Whether `d` writes a number that fits 64 bits: one digit or more, a plus
/// sign before them or none, and nothing else.
pub open spec fn is_number(d: Seq<u8>) -> bool {
    &&& digits_of(d).len() > 0
    &&& forall|i: int| 0 <= i < digits_of(d).len() ==> is_digit(#[trigger] digits_of(d)[i])
    &&& decimal(digits_of(d)) <= u64::MAX
}

/// The number that the word `d` writes.
pub open spec fn number_of(d: Seq<u8>) -> nat {
    decimal(digits_of(d))
}

/// The numbers that the words `ws` write, if all of them write one.
pub open spec fn numbers(ws: Seq<Seq<u8>>) -> Option<Seq<u64>>
    decreases ws.len(),
{
    if ws.len() == 0 {
        Some(Seq::<u64>::empty())
    } else {
        match numbers(ws.drop_last()) {
            Some(front) if is_number(ws.last()) => Some(front.push(number_of(ws.last()) as u64)),
            _ => None,
        }
    }
}

/// The rows that the lines `ls` write: one for each line that holds a
/// word, if every word writes a number.
pub open spec fn rows(ls: Seq<Seq<u8>>) -> Option<Seq<Seq<u64>>>
    decreases ls.len(),
{
    if ls.len() == 0 {
        Some(Seq::<Seq<u64>>::empty())
    } else {
        match rows(ls.drop_last()) {
            None => None,
            Some(front) => if words(ls.last()).len() == 0 {
                Some(front)
            } else {
                match numbers(words(ls.last())) {
                    Some(row) => Some(front.push(row)),
                    None => None,
                }
            },
        }
    }
}

/// The matrix that a text writes, row by row, if every word of the text
/// writes a number.
pub open spec fn matrix_of(text: Seq<u8>) -> Option<Seq<Seq<u64>>> {
    rows(lines(text))
}

/// The byte sequences that a vector of byte vectors holds.
pub open spec fn byte_rows(v: Seq<Vec<u8>>) -> Seq<Seq<u8>> {
    Seq::new(v.len(), |i: int| v[i]@)
}

/// More digits write no smaller a number.
pub proof fn lemma_decimal_grows(d: Seq<u8>, k: int)
    requires
        0 <= k <= d.len(),
        forall|i: int| 0 <= i < d.len() ==> is_digit(#[trigger] d[i]),
    ensures
        decimal(d.take(k)) <= decimal(d),
    decreases d.len() - k,
{
    if k < d.len() {
        lemma_decimal_grows(d, k + 1);
        assert(d.take(k + 1).drop_last() =~= d.take(k));
        assert(is_digit(d[k]));
    } else {
        assert(d.take(k) =~= d);
    }
}

/// Where some of the first words write no number, the words write none.
pub proof fn lemma_numbers_fail(ws: Seq<Seq<u8>>, k: int)
    requires
        0 <= k <= ws.len(),
        numbers(ws.take(k)) is None,
    ensures
        numbers(ws) is None,
    decreases ws.len() - k,
{
    if k < ws.len() {
        assert(ws.take(k + 1).drop_last() =~= ws.take(k));
        lemma_numbers_fail(ws, k + 1);
    } else {
        assert(ws.take(k) =~= ws);
    }
}

/// Where some of the first lines write no rows, the lines write none.
pub proof fn lemma_rows_fail(ls: Seq<Seq<u8>>, k: int)
    requires
        0 <= k <= ls.len(),
        rows(ls.take(k)) is None,
    ensures
        rows(ls) is None,
    decreases ls.len() - k,
{
    if k < ls.len() {
        assert(ls.take(k + 1).drop_last() =~= ls.take(k));
        lemma_rows_fail(ls, k + 1);
    } else {
        assert(ls.take(k) =~= ls);
    }
}

/// The lines of a text.
pub fn split_lines(text: &Vec<u8>) -> (out: Vec<Vec<u8>>)
    ensures
        byte_rows(out@) == lines(text@),
{
    let mut out: Vec<Vec<u8>> = Vec::new();
    out.push(Vec::new());
    assert(byte_rows(out@) =~= lines(text@.take(0)));
    let mut k: usize = 0;
    while k < text.len()
        invariant
            k <= text.len(),
            out.len() >= 1,
            byte_rows(out@) == lines(text@.take(k as int)),
        decreases text.len() - k,
    {
        let b: u8 = text[k];
        let ghost before = byte_rows(out@);
        assert(text@.take(k + 1).drop_last() =~= text@.take(k as int));
        if b == 10 {
            out.push(Vec::new());
            assert(byte_rows(out@) =~= before.push(Seq::<u8>::empty()));
        } else {
            let last: usize = out.len() - 1;
            out[last].push(b);
            assert(byte_rows(out@) =~= before.update(before.len() - 1, before.last().push(b)));
        }
        k += 1;
    }
    assert(text@.take(text.len() as int) =~= text@);
    out
}

/// The words of a line.
pub fn split_words(line: &Vec<u8>) -> (out: Vec<Vec<u8>>)
    ensures
        byte_rows(out@) == words(line@),
{
    let mut out: Vec<Vec<u8>> = Vec::new();
    assert(byte_rows(out@) =~= words(line@.take(0)));
    let mut inside: bool = false;
    let mut k: usize = 0;
    while k < line.len()
        invariant
            k <= line.len(),
            inside == (k > 0 && !is_blank(line@[k - 1])),
            inside ==> out.len() >= 1,
            byte_rows(out@) == words(line@.take(k as int)),
        decreases line.len() - k,
    {
        let b: u8 = line[k];
        let ghost before = byte_rows(out@);
        let ghost now = line@.take(k + 1);
        assert(now.drop_last() =~= line@.take(k as int));
        assert(k > 0 ==> now[now.len() - 2] == line@[k - 1]);
        if b == 32 || b == 9 || b == 11 || b == 12 || b == 13 {
            inside = false;
        } else if inside {
            let last: usize = out.len() - 1;
            out[last].push(b);
            assert(byte_rows(out@) =~= before.update(before.len() - 1, before.last().push(b)));
        } else {
            let mut word: Vec<u8> = Vec::new();
            word.push(b);
            out.push(word);
            inside = true;
            assert(byte_rows(out@) =~= before.push(seq![b]));
        }
        k += 1;
    }
    assert(line@.take(line.len() as int) =~= line@);
    out
}

/// The number that `word` writes in decimal digits, if it writes one that
/// fits 64 bits.
pub fn parse_number(word: &Vec<u8>) -> (r: Option<u64>)
    ensures
        is_number(word@) ==> r == Some(number_of(word@) as u64),
        !is_number(word@) ==> r is None,
{
    let start: usize = if word.len() > 0 && word[0] == 43 {
        1
    } else {
        0
    };
    let ghost digits = digits_of(word@);
    assert(digits =~= word@.skip(start as int));
    if word.len() == start {
        return None;
    }
    let mut value: u64 = 0;
    let mut k: usize = start;
    assert(digits.take(0) =~= Seq::<u8>::empty());
    while k < word.len()
        invariant
            start <= k <= word.len(),
            digits == word@.skip(start as int),
            digits == digits_of(word@),
            forall|i: int| 0 <= i < k - start ==> is_digit(#[trigger] digits[i]),
            value == decimal(digits.take(k - start)),
        decreases word.len() - k,
    {
        let b: u8 = word[k];
        assert(digits[k - start] == b);
        if b < 48 || b > 57 {
            return None;
        }
        let digit: u64 = (b - 48) as u64;
        assert(digits.take(k - start + 1).drop_last() =~= digits.take(k - start));
        if value > (u64::MAX - digit) / 10 {
            proof {
                if is_number(word@) {
                    lemma_decimal_grows(digits, k - start + 1);
                }
            }
            return None;
        }
        value = value * 10 + digit;
        k += 1;
    }
    assert(digits.take(digits.len() as int) =~= digits);
    Some(value)
}

/// The numbers that the words `found` write, if all of them write one.
pub fn parse_row(found: &Vec<Vec<u8>>) -> (r: Option<Vec<u64>>)
    ensures
        match numbers(byte_rows(found@)) {
            Some(row) => r is Some && r->Some_0@ == row,
            None => r is None,
        },
{
    let ghost ws = byte_rows(found@);
    let mut row: Vec<u64> = Vec::new();
    let mut k: usize = 0;
    while k < found.len()
        invariant
            k <= found.len(),
            ws == byte_rows(found@),
            numbers(ws.take(k as int)) == Some(row@),
        decreases found.len() - k,
    {
        assert(ws.take(k + 1).drop_last() =~= ws.take(k as int));
        assert(ws.take(k + 1).last() == found[k as int]@);
        match parse_number(&found[k]) {
            Some(x) => {
                row.push(x);
            },
            None => {
                proof {
                    lemma_numbers_fail(ws, k + 1);
                }
                return None;
            },
        }
        k += 1;
    }
    assert(ws.take(found.len() as int) =~= ws);
    Some(row)
}

/// The matrix that a text of white space and decimal numbers writes, one
/// row for each line that holds a number. `None` where the text holds
/// anything else, such as a minus sign, or a number that does not fit 64
/// bits.
pub fn parse_matrix(text: &Vec<u8>) -> (r: Option<Vec<Vec<u64>>>)
    ensures
        match matrix_of(text@) {
            Some(m) => r is Some && matrix_view(r->Some_0@) == m,
            None => r is None,
        },
{
    let all = split_lines(text);
    let ghost ls = lines(text@);
    let mut out: Vec<Vec<u64>> = Vec::new();
    let mut k: usize = 0;
    assert(matrix_view(out@) =~= Seq::<Seq<u64>>::empty());
    while k < all.len()
        invariant
            k <= all.len(),
            ls == byte_rows(all@),
            ls == lines(text@),
            rows(ls.take(k as int)) == Some(matrix_view(out@)),
        decreases all.len() - k,
    {
        assert(ls.take(k + 1).drop_last() =~= ls.take(k as int));
        assert(ls.take(k + 1).last() == all[k as int]@);
        let found = split_words(&all[k]);
        if found.len() > 0 {
            let ghost before = matrix_view(out@);
            match parse_row(&found) {
                Some(row) => {
                    out.push(row);
                    assert(matrix_view(out@) =~= before.push(row@));
                },
                None => {
                    proof {
                        assert(words(ls.take(k + 1).last()).len() == found.len());
                        lemma_rows_fail(ls, k + 1);
                    }
                    return None;
                },
            }
        }
        k += 1;
    }
    assert(ls.take(all.len() as int) =~= ls);
    Some(out)
}

/// The graph that a text writes: its weight matrix is the matrix of the
/// text, and its vertices are labelled `0, 1, ..` by row.
pub fn graph_of_text(text: &Vec<u8>) -> (r: Option<Graph<usize>>)
    ensures
        match matrix_of(text@) {
            Some(m) => r is Some && r->Some_0.weights() == m && r->Some_0.labels() == ascending(
                0,
                m.len(),
            ),
            None => r is None,
        },
{
    match parse_matrix(text) {
        Some(m) => {
            let labels = count_up(0, m.len());
            Some(Graph::from(labels, m))
        },
        None => None,
    }
}

} // verus!
