//! What holds of texts: their order, their lines, and numbers written in them.

use crate::text::{all_digits, decimal, digits, digits_value, id_of, joined, lines, text_lt};
use vstd::prelude::*;

verus! {

/// Numbers are written with decimal digits, the highest one first, and with a minus sign if they
/// are below zero.
pub proof fn numbers_are_written_in_decimal(number: nat, digit: nat, c: char)
    requires
        digit < 10,
        c as int == '0' as int + digit,
    ensures
        digits(digit) == seq![c],
        number > 0 ==> digits(10 * number + digit) == digits(number).push(c),
        decimal(number as int) == digits(number),
        number > 0 ==> decimal(-(number as int)) == seq!['-'] + digits(number),
{
    if number > 0 {
        assert((10 * number + digit) / 10 == number);
        assert((10 * number + digit) % 10 == digit);
    }
}

/// Whether all characters are decimal digits.
pub open spec fn is_number(text: Seq<char>) -> bool {
    text.len() > 0 && forall|i: int| 0 <= i < text.len() ==> '0' <= #[trigger] text[i] <= '9'
}

/// An id is a whole number in decimal digits, from -32768 to 32767, with or without a sign: one
/// more digit at the end makes it ten times as large, and adds the digit.
pub proof fn ids_are_decimal_numbers(text: Seq<char>, c: char, digit: int)
    requires
        is_number(text),
        '0' <= c <= '9',
        digit == c as int - '0' as int,
    ensures
        id_of(seq![c]) == Some(digit as i16),
        id_of(seq!['-', c]) == Some((-digit) as i16),
        id_of(seq!['+'] + text) == id_of(text),
        match id_of(text) {
            Some(value) => {
                let next = 10 * value + digit;
                &&& value >= 0
                &&& id_of(seq!['-'] + text) == Some((-value) as i16)
                &&& id_of(text.push(c)) == (if next <= 32767 {
                    Some(next as i16)
                } else {
                    None
                })
                &&& id_of(seq!['-'] + text.push(c)) == (if next <= 32768 {
                    Some((-next) as i16)
                } else {
                    None
                })
            },
            None => id_of(text.push(c)) is None && id_of(seq!['-'] + text.push(c)) is None,
        },
{
    let more = text.push(c);
    assert(more.drop_last() =~= text);
    assert(more.last() == c);
    assert(all_digits(more)) by {
        assert forall|i: int| 0 <= i < more.len() implies '0' <= #[trigger] more[i] <= '9' by {
            if i < text.len() {
                assert(more[i] == text[i]);
            }
        }
    }
    assert(digits_value(more) == digits_value(text) * 10 + digit);
    let one = seq![c];
    assert(one.drop_last() =~= Seq::empty());
    assert(digits_value(Seq::<char>::empty()) == 0);
    assert(digits_value(one) == digit);
    assert(all_digits(one));
    assert(one[0] == c);
    let minus = seq!['-', c];
    assert(minus.drop_first() =~= one);
    assert(minus[0] == '-');
    assert((seq!['+'] + text).drop_first() =~= text);
    assert((seq!['+'] + text)[0] == '+');
    assert((seq!['-'] + text).drop_first() =~= text);
    assert((seq!['-'] + text)[0] == '-');
    assert((seq!['-'] + more).drop_first() =~= more);
    assert((seq!['-'] + more)[0] == '-');
    assert('0' <= text[0] <= '9');
    assert(more[0] == text[0]);
    assert(all_digits(text));
}

/// A text is no id if it is empty, or a sign alone, or has a character that is not a digit, but for
/// a sign in front.
pub proof fn other_texts_are_no_ids(text: Seq<char>, i: int)
    requires
        0 <= i < text.len(),
        !('0' <= text[i] <= '9'),
        i == 0 ==> (text[0] != '+' && text[0] != '-') || text.len() == 1,
    ensures
        id_of(text) is None,
        id_of(Seq::empty()) is None,
{
    let signed = text[0] == '+' || text[0] == '-';
    if signed && i > 0 {
        assert(text.drop_first()[i - 1] == text[i]);
    }
}

/// Texts go by the first character in which they differ, and a text comes before those that go on
/// after it.
pub proof fn texts_go_by_their_first_difference(
    start: Seq<char>,
    a: char,
    b: char,
    rest: Seq<char>,
    other: Seq<char>,
)
    requires
        a < b,
    ensures
        text_lt(start + seq![a] + rest, start + seq![b] + other),
        !text_lt(start + seq![b] + other, start + seq![a] + rest),
        text_lt(start, start + seq![a] + rest),
        !text_lt(start + seq![a] + rest, start),
    decreases start.len(),
{
    let x = start + seq![a] + rest;
    let y = start + seq![b] + other;
    if start.len() == 0 {
        assert(x[0] == a);
        assert(y[0] == b);
    } else {
        let less = start.drop_first();
        texts_go_by_their_first_difference(less, a, b, rest, other);
        assert(x[0] == start[0] && y[0] == start[0]);
        assert(x.drop_first() =~= less + seq![a] + rest);
        assert(y.drop_first() =~= less + seq![b] + other);
    }
}

/// The lines of a text are what stands before, between and after its line feeds; a carriage return
/// before a line feed belongs to the line feed, and nothing after the last one is no line.
pub proof fn lines_end_with_line_feeds(line: Seq<char>, rest: Seq<char>)
    requires
        !line.contains('\n'),
    ensures
        lines(Seq::empty()) == Seq::<Seq<char>>::empty(),
        line.len() > 0 ==> lines(line) == seq![line],
        lines(line + seq!['\r', '\n'] + rest) == seq![line] + lines(rest),
        line.len() == 0 || line.last() != '\r' ==> lines(line + seq!['\n'] + rest) == seq![line]
            + lines(rest),
{
    lemma_first_line(line, rest);
    let longer = line.push('\r');
    assert(!longer.contains('\n')) by {
        if longer.contains('\n') {
            let k = choose|k: int| 0 <= k < longer.len() && longer[k] == '\n';
            assert(line[k] == '\n');
        }
    }
    lemma_first_line(longer, rest);
    assert(longer + seq!['\n'] + rest =~= line + seq!['\r', '\n'] + rest);
    assert(longer.drop_last() =~= line);
}

proof fn lemma_first_line(line: Seq<char>, rest: Seq<char>)
    requires
        !line.contains('\n'),
    ensures
        lines(line + seq!['\n'] + rest) == seq![crate::text::without_return(line)] + lines(rest),
{
    let text = line + seq!['\n'] + rest;
    let n = line.len() as int;
    assert(text[n] == '\n');
    assert(text.contains('\n'));
    text.index_of_first_ensures('\n');
    let end = text.index_of_first('\n').unwrap();
    if end < n {
        assert(line[end] == text[end]);
        assert(line.contains('\n'));
    } else if end > n {
        assert(text[n] != '\n');
    }
    assert(text.take(n) =~= line);
    assert(text.skip(n + 1) =~= rest);
}

/// Texts are joined with a line feed between any two of them.
pub proof fn texts_are_joined_by_line_feeds(texts: Seq<Seq<char>>, text: Seq<char>)
    ensures
        joined(Seq::empty()) == Seq::<char>::empty(),
        joined(seq![text]) == text,
        texts.len() > 0 ==> joined(texts.push(text)) == joined(texts) + seq!['\n'] + text,
{
    assert(texts.push(text).drop_last() =~= texts);
    if texts.len() > 0 {
        assert(joined(texts).push('\n') + text =~= joined(texts) + seq!['\n'] + text);
    }
}

} // verus!
