//! Text: lines, decimal numbers, and strings set side by side.

use vstd::prelude::*;
use vstd::string::StringExecFns;

verus! {

/// `String::push` of the standard library appends one character to the end of the string.
pub assume_specification[ String::push ](s: &mut String, c: char)
    ensures
        final(s)@ == old(s)@.push(c),
;

/// The characters of `text`.
pub(crate) fn chars_of(text: &str) -> (chars: Vec<char>)
    ensures
        chars@ == text@,
{
    let mut chars: Vec<char> = Vec::new();
    for c in iter: text.chars()
        invariant
            iter.seq() == text@,
            chars@ == iter.seq().take(iter.index() as int),
    {
        proof {
            assert(iter.seq().take(iter.index() + 1) =~= iter.seq().take(iter.index() as int).push(c));
        }
        chars.push(c);
    }
    proof {
        assert(text@.take(text@.len() as int) =~= text@);
    }
    chars
}

/// Appends `chars` to `text`.
pub(crate) fn push_all(text: &mut String, chars: &Vec<char>)
    ensures
        final(text)@ == old(text)@ + chars@,
{
    let mut i: usize = 0;
    proof {
        assert(text@ =~= old(text)@ + chars@.take(0));
    }
    while i < chars.len()
        invariant
            i <= chars.len(),
            text@ == old(text)@ + chars@.take(i as int),
        decreases chars.len() - i,
    {
        text.push(chars[i]);
        proof {
            assert(chars@.take(i + 1) =~= chars@.take(i as int).push(chars@[i as int]));
            assert(text@ =~= old(text)@ + chars@.take(i + 1));
        }
        i = i + 1;
    }
    proof {
        assert(chars@.take(chars.len() as int) =~= chars@);
    }
}

/// The number of characters before the first line feed of `text`, or in all.
pub open spec fn first_line_len(text: Seq<char>) -> nat
    decreases text.len(),
{
    if text.len() == 0 || text[0] == '\n' {
        0
    } else {
        1 + first_line_len(text.drop_first())
    }
}

/// A line without the carriage return that ends it, if one does.
pub open spec fn without_return(line: Seq<char>) -> Seq<char> {
    if line.len() > 0 && line.last() == '\r' {
        line.drop_last()
    } else {
        line
    }
}

/// The lines of `text`. A line ends with a line feed, or with a carriage return and a
/// line feed, neither of which belongs to it; the last line may end with the text. A
/// carriage return at the very end of the text stays.
pub open spec fn lines_of(text: Seq<char>) -> Seq<Seq<char>>
    decreases text.len(),
{
    if text.len() == 0 {
        Seq::empty()
    } else {
        let n = first_line_len(text) as int;
        if n >= text.len() {
            seq![text]
        } else {
            seq![without_return(text.take(n))] + lines_of(text.skip(n + 1))
        }
    }
}

/// A list of rows of characters as plain sequences.
pub open spec fn rows_of(lines: Seq<Vec<char>>) -> Seq<Seq<char>> {
    Seq::new(lines.len(), |i: int| lines[i]@)
}

/// The first line is as long as the text before its first line feed.
pub proof fn lemma_first_line(text: Seq<char>, n: int)
    requires
        0 <= n <= text.len(),
        forall|j: int| 0 <= j < n ==> text[j] != '\n',
        n == text.len() || text[n] == '\n',
    ensures
        first_line_len(text) == n,
    decreases n,
{
    if n > 0 {
        let rest = text.drop_first();
        assert forall|j: int| 0 <= j < n - 1 implies rest[j] != '\n' by {
            assert(rest[j] == text[j + 1]);
        }
        lemma_first_line(rest, n - 1);
    }
}

/// The characters of `text` from `from` up to `to`.
pub(crate) fn slice_of(text: &Vec<char>, from: usize, to: usize) -> (part: Vec<char>)
    requires
        from <= to <= text.len(),
    ensures
        part@ == text@.subrange(from as int, to as int),
{
    let mut part: Vec<char> = Vec::new();
    let mut i = from;
    while i < to
        invariant
            from <= i <= to <= text.len(),
            part@ == text@.subrange(from as int, i as int),
        decreases to - i,
    {
        part.push(text[i]);
        proof {
            assert(text@.subrange(from as int, i + 1) =~= text@.subrange(from as int, i as int).push(
                text@[i as int],
            ));
        }
        i = i + 1;
    }
    part
}

/// The lines of `text`: see [`lines_of`].
pub(crate) fn split_lines(text: &Vec<char>) -> (lines: Vec<Vec<char>>)
    ensures
        rows_of(lines@) == lines_of(text@),
{
    let mut lines: Vec<Vec<char>> = Vec::new();
    let mut start: usize = 0;
    proof {
        assert(text@.skip(0) =~= text@);
        assert(rows_of(lines@) + lines_of(text@.skip(0)) =~= lines_of(text@));
    }
    while start < text.len()
        invariant
            start <= text.len(),
            rows_of(lines@) + lines_of(text@.skip(start as int)) == lines_of(text@),
        decreases text.len() - start,
    {
        let mut end = start;
        while end < text.len() && text[end] != '\n'
            invariant
                start <= end <= text.len(),
                forall|j: int| start <= j < end ==> text@[j] != '\n',
            decreases text.len() - end,
        {
            end = end + 1;
        }
        let ghost rest = text@.skip(start as int);
        let ghost done = rows_of(lines@);
        proof {
            assert forall|j: int| 0 <= j < end - start implies rest[j] != '\n' by {
                assert(rest[j] == text@[start + j]);
            }
            lemma_first_line(rest, end - start);
        }
        let terminated = end < text.len();
        let mut stop = end;
        if terminated && stop > start && text[stop - 1] == '\r' {
            stop = stop - 1;
        }
        let line = slice_of(text, start, stop);
        lines.push(line);
        proof {
            assert(rest.take(end - start) =~= text@.subrange(start as int, end as int));
            if terminated {
                assert(line@ =~= without_return(rest.take(end - start)));
                assert(rest.skip(end - start + 1) =~= text@.skip(end + 1));
                assert(rows_of(lines@) =~= done.push(line@));
                assert(done.push(line@) + lines_of(text@.skip(end + 1)) =~= done + lines_of(rest));
            } else {
                assert(line@ =~= rest);
                assert(rows_of(lines@) =~= done.push(line@));
                assert(text@.skip(end as int) =~= Seq::<char>::empty());
                assert(done.push(line@) + lines_of(text@.skip(end as int)) =~= done + lines_of(rest));
            }
        }
        start = if terminated {
            end + 1
        } else {
            end
        };
    }
    proof {
        assert(rows_of(lines@) + lines_of(text@.skip(start as int)) =~= rows_of(lines@));
    }
    lines
}

/// The rows that set each line of `left` beside the line of `right` with the same
/// number, `gap` between them, as far as both have lines.
pub open spec fn beside(left: Seq<Seq<char>>, right: Seq<Seq<char>>, gap: Seq<char>) -> Seq<
    Seq<char>,
> {
    Seq::new(
        if left.len() <= right.len() {
            left.len()
        } else {
            right.len()
        },
        |i: int| left[i] + gap + right[i],
    )
}

/// The rows with a line feed between every two of them.
pub open spec fn join_lines(rows: Seq<Seq<char>>) -> Seq<char>
    decreases rows.len(),
{
    if rows.len() == 0 {
        Seq::empty()
    } else if rows.len() == 1 {
        rows[0]
    } else {
        join_lines(rows.drop_last()) + seq!['\n'] + rows.last()
    }
}

/// Two texts set side by side, line by line: see [`hconcat`].
pub open spec fn hconcat_of(left: Seq<char>, right: Seq<char>, gap: Seq<char>) -> Seq<char> {
    join_lines(beside(lines_of(left), lines_of(right), gap))
}

/// Sets two texts side by side: each line of the result is a line of `left`, then `gap`,
/// then the line of `right` with the same number. The result has as many lines as the
/// shorter of the two, with a line feed between every two of them.
pub fn hconcat(left: &str, right: &str, gap: &str) -> (joined: String)
    ensures
        joined@ == hconcat_of(left@, right@, gap@),
{
    let left_lines = split_lines(&chars_of(left));
    let right_lines = split_lines(&chars_of(right));
    let ghost rows = beside(lines_of(left@), lines_of(right@), gap@);
    let mut joined = String::new();
    let mut i: usize = 0;
    proof {
        assert(rows.take(0) =~= Seq::<Seq<char>>::empty());
    }
    while i < left_lines.len() && i < right_lines.len()
        invariant
            rows_of(left_lines@) == lines_of(left@),
            rows_of(right_lines@) == lines_of(right@),
            rows == beside(lines_of(left@), lines_of(right@), gap@),
            i <= rows.len(),
            joined@ == join_lines(rows.take(i as int)),
        decreases left_lines.len() - i,
    {
        let ghost before = joined@;
        if i > 0 {
            joined.push('\n');
        }
        push_all(&mut joined, &left_lines[i]);
        joined.append(gap);
        push_all(&mut joined, &right_lines[i]);
        proof {
            assert(rows_of(left_lines@)[i as int] == left_lines@[i as int]@);
            assert(rows_of(right_lines@)[i as int] == right_lines@[i as int]@);
            let row = rows[i as int];
            assert(row == left_lines@[i as int]@ + gap@ + right_lines@[i as int]@);
            let longer = rows.take(i + 1);
            assert(longer.drop_last() =~= rows.take(i as int));
            assert(longer.last() == row);
            if i > 0 {
                assert(joined@ =~= before + seq!['\n'] + row);
            } else {
                assert(joined@ =~= row);
            }
        }
        i = i + 1;
    }
    proof {
        assert(rows.take(i as int) =~= rows);
    }
    joined
}

/// The character of a decimal digit.
pub open spec fn digit(d: int) -> char {
    if d == 0 {
        '0'
    } else if d == 1 {
        '1'
    } else if d == 2 {
        '2'
    } else if d == 3 {
        '3'
    } else if d == 4 {
        '4'
    } else if d == 5 {
        '5'
    } else if d == 6 {
        '6'
    } else if d == 7 {
        '7'
    } else if d == 8 {
        '8'
    } else {
        '9'
    }
}

/// The decimal digits of `n`, without leading zeros.
pub open spec fn decimal(n: nat) -> Seq<char>
    decreases n,
{
    if n < 10 {
        seq![digit(n as int)]
    } else {
        decimal(n / 10).push(digit(n as int % 10))
    }
}

/// The last three decimal digits of `n`.
pub open spec fn three_digits(n: nat) -> Seq<char> {
    seq![digit(n as int / 100 % 10), digit(n as int / 10 % 10), digit(n as int % 10)]
}

/// The character of the decimal digit `d`.
pub(crate) fn digit_char(d: usize) -> (c: char)
    requires
        d < 10,
    ensures
        c == digit(d as int),
{
    if d == 0 {
        '0'
    } else if d == 1 {
        '1'
    } else if d == 2 {
        '2'
    } else if d == 3 {
        '3'
    } else if d == 4 {
        '4'
    } else if d == 5 {
        '5'
    } else if d == 6 {
        '6'
    } else if d == 7 {
        '7'
    } else if d == 8 {
        '8'
    } else {
        '9'
    }
}

/// Appends the decimal digits of `n` to `text`.
pub(crate) fn push_decimal(text: &mut String, n: usize)
    ensures
        final(text)@ == old(text)@ + decimal(n as nat),
    decreases n,
{
    if n >= 10 {
        push_decimal(text, n / 10);
    }
    text.push(digit_char(n % 10));
    proof {
        if n >= 10 {
            assert(text@ =~= old(text)@ + decimal(n as nat));
        } else {
            assert(text@ =~= old(text)@ + decimal(n as nat));
        }
    }
}

/// Appends the last three decimal digits of `n` to `text`.
pub(crate) fn push_three_digits(text: &mut String, n: usize)
    ensures
        final(text)@ == old(text)@ + three_digits(n as nat),
{
    text.push(digit_char(n / 100 % 10));
    text.push(digit_char(n / 10 % 10));
    text.push(digit_char(n % 10));
    proof {
        assert(text@ =~= old(text)@ + three_digits(n as nat));
    }
}

/// A count of iterations in a form that is easy to read: see [`large_number`].
pub open spec fn large_number_of(number: nat) -> Seq<char> {
    if number < 1_000 {
        decimal(number)
    } else if number < 1_000_000 {
        decimal(number / 100) + " "@ + three_digits(number % 1_000)
    } else if number < 1_000_000_000 {
        decimal(number / 1_000_000) + "."@ + three_digits(number % 1_000_000 / 1_000) + " million"@
    } else {
        decimal(number / 1_000_000_000) + "."@ + three_digits(number % 1_000_000_000 / 1_000_000)
            + " billion"@
    }
}

/// Writes a large number so that its size shows: below a thousand as it is; below a
/// million as its hundreds, a space and its last three digits; from there on in
/// millions or billions with three decimal places.
pub fn large_number(number: usize) -> (text: String)
    ensures
        text@ == large_number_of(number as nat),
{
    let mut text = String::new();
    if number < 1_000 {
        push_decimal(&mut text, number);
    } else if number < 1_000_000 {
        push_decimal(&mut text, number / 100);
        text.append(" ");
        push_three_digits(&mut text, number % 1_000);
    } else if number < 1_000_000_000 {
        push_decimal(&mut text, number / 1_000_000);
        text.append(".");
        push_three_digits(&mut text, number % 1_000_000 / 1_000);
        text.append(" million");
    } else {
        push_decimal(&mut text, number / 1_000_000_000);
        text.append(".");
        push_three_digits(&mut text, number % 1_000_000_000 / 1_000_000);
        text.append(" billion");
    }
    proof {
        assert(text@ =~= large_number_of(number as nat));
    }
    text
}

} // verus!
