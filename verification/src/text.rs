//! Texts as sequences of characters.

use vstd::prelude::*;

verus! {

/// Appends with `String::push`: the character comes last.
pub assume_specification[ String::push ](text: &mut String, c: char)
    ensures
        final(text)@ == old(text)@.push(c),
;

/// The characters of a text.
pub(crate) fn chars_of(text: &str) -> (chars: Vec<char>)
    ensures
        chars@ == text@,
{
    broadcast use vstd::string::group_string_axioms;

    let mut chars: Vec<char> = Vec::new();
    for c in it: text.chars()
        invariant
            it.seq() == text@,
            chars@ == text@.take(it.index() as int),
    {
        chars.push(c);
        assert(chars@ =~= text@.take(it.index() + 1));
    }
    assert(chars@ =~= text@);
    chars
}

/// Whether a text is the given one.
pub(crate) fn is_text(text: &String, other: &str) -> (same: bool)
    ensures
        same == (text@ == other@),
{
    *text == String::from_str(other)
}

/// The text of the characters from one place up to another.
pub(crate) fn text_of(chars: &Vec<char>, start: usize, end: usize) -> (text: String)
    requires
        start <= end <= chars@.len(),
    ensures
        text@ == chars@.subrange(start as int, end as int),
{
    let mut text = String::new();
    for i in start..end
        invariant
            start <= end <= chars@.len(),
            text@ == chars@.subrange(start as int, i as int),
    {
        text.push(chars[i]);
        assert(text@ =~= chars@.subrange(start as int, i + 1));
    }
    text
}

/// Whether a character is white space, as Unicode has it.
pub open spec fn is_space(c: char) -> bool {
    let code = c as u32;
    ||| 0x9 <= code <= 0xd
    ||| code == 0x20
    ||| code == 0x85
    ||| code == 0xa0
    ||| code == 0x1680
    ||| 0x2000 <= code <= 0x200a
    ||| code == 0x2028
    ||| code == 0x2029
    ||| code == 0x202f
    ||| code == 0x205f
    ||| code == 0x3000
}

/// Whether a character is white space, as Unicode has it.
pub fn is_white_space(c: char) -> (space: bool)
    ensures
        space == is_space(c),
{
    let code: u32 = c as u32;
    (0x9 <= code && code <= 0xd) || code == 0x20 || code == 0x85 || code == 0xa0 || code == 0x1680
        || (0x2000 <= code && code <= 0x200a) || code == 0x2028 || code == 0x2029 || code == 0x202f
        || code == 0x205f || code == 0x3000
}

/// The text without the white space at its start.
pub open spec fn trimmed_start(text: Seq<char>) -> Seq<char>
    decreases text.len(),
{
    if text.len() > 0 && is_space(text[0]) {
        trimmed_start(text.drop_first())
    } else {
        text
    }
}

/// The text without the white space at its end.
pub open spec fn trimmed_end(text: Seq<char>) -> Seq<char>
    decreases text.len(),
{
    if text.len() > 0 && is_space(text.last()) {
        trimmed_end(text.drop_last())
    } else {
        text
    }
}

/// The text without the white space at its start and its end.
pub open spec fn trimmed(text: Seq<char>) -> Seq<char> {
    trimmed_end(trimmed_start(text))
}

/// The text of some characters without the white space at the start and the end.
pub(crate) fn trim(chars: &Vec<char>) -> (text: String)
    ensures
        text@ == trimmed(chars@),
{
    let n: usize = chars.len();
    let mut start: usize = 0;
    assert(chars@.skip(0) =~= chars@);
    while start < n && is_white_space(chars[start])
        invariant
            n == chars@.len(),
            start <= n,
            trimmed_start(chars@.skip(start as int)) == trimmed_start(chars@),
        decreases n - start,
    {
        assert(chars@.skip(start as int).drop_first() =~= chars@.skip(start + 1));
        start = start + 1;
    }
    let ghost rest = chars@.skip(start as int);
    assert(rest == trimmed_start(chars@));
    let mut end: usize = n;
    assert(rest.take(end - start) =~= rest);
    while end > start && is_white_space(chars[end - 1])
        invariant
            n == chars@.len(),
            start <= end <= n,
            rest == chars@.skip(start as int),
            trimmed_end(rest.take(end - start)) == trimmed_end(rest),
        decreases end - start,
    {
        assert(rest.take(end - start).last() == chars@[end - 1]);
        assert(rest.take(end - start).drop_last() =~= rest.take(end - 1 - start));
        end = end - 1;
    }
    assert(rest.take(end - start) =~= chars@.subrange(start as int, end as int));
    text_of(chars, start, end)
}

/// Whether one text occurs in another.
pub open spec fn occurs(text: Seq<char>, part: Seq<char>) -> bool {
    exists|i: int|
        0 <= i <= text.len() - part.len() && #[trigger] text.subrange(i, i + part.len()) == part
}

/// Whether one text stands at a place of another.
fn stands_at(text: &Vec<char>, part: &Vec<char>, i: usize) -> (found: bool)
    requires
        i + part@.len() <= text@.len(),
    ensures
        found == (text@.subrange(i as int, i + part@.len()) == part@),
{
    let n: usize = part.len();
    let total: usize = text.len();
    for j in 0..n
        invariant
            n == part@.len(),
            total == text@.len(),
            i + part@.len() <= text@.len(),
            forall|k: int| 0 <= k < j ==> text@[i + k] == part@[k],
    {
        if text[i + j] != part[j] {
            assert(text@.subrange(i as int, i + part@.len())[j as int] != part@[j as int]);
            return false;
        }
    }
    assert(text@.subrange(i as int, i + part@.len()) =~= part@);
    true
}

/// Whether one text occurs in another.
pub(crate) fn find_part(text: &Vec<char>, part: &str) -> (found: bool)
    ensures
        found == occurs(text@, part@),
{
    let piece = chars_of(part);
    let n: usize = piece.len();
    if text.len() < n {
        return false;
    }
    let last: usize = text.len() - n;
    let mut i: usize = 0;
    loop
        invariant
            n == part@.len(),
            piece@ == part@,
            last == text@.len() - n,
            i <= last,
            forall|k: int| 0 <= k < i ==> #[trigger] text@.subrange(k, k + part@.len()) != part@,
        decreases last - i,
    {
        if stands_at(text, &piece, i) {
            return true;
        }
        if i == last {
            return false;
        }
        i = i + 1;
    }
}

/// Tells whether a character is the given one.
pub open spec fn is_char(c: char) -> spec_fn(char) -> bool {
    |other: char| other == c
}

/// How often a character occurs in a text.
pub open spec fn occurrences(text: Seq<char>, c: char) -> nat {
    text.filter(is_char(c)).len()
}

/// How often a character occurs in a text.
pub(crate) fn count_char(text: &Vec<char>, c: char) -> (count: usize)
    ensures
        count == occurrences(text@, c),
{
    let n: usize = text.len();
    let mut count: usize = 0;
    reveal(Seq::filter);
    for i in 0..n
        invariant
            n == text@.len(),
            count == text@.take(i as int).filter(is_char(c)).len(),
            count <= i,
    {
        reveal(Seq::filter);
        assert(text@.take(i + 1).drop_last() =~= text@.take(i as int));
        assert(text@.take(i + 1).last() == text@[i as int]);
        if text[i] == c {
            count = count + 1;
        }
    }
    assert(text@.take(n as int) =~= text@);
    count
}

/// A line without the carriage return at its end.
pub open spec fn without_return(line: Seq<char>) -> Seq<char> {
    if line.len() > 0 && line.last() == '\r' {
        line.drop_last()
    } else {
        line
    }
}

/// The lines of a text. A line ends with a line feed, which a carriage return may precede; the last
/// one may also end with the text. Neither belongs to the line.
pub open spec fn lines(text: Seq<char>) -> Seq<Seq<char>>
    decreases text.len(),
{
    if text.len() == 0 {
        Seq::empty()
    } else if !text.contains('\n') {
        seq![text]
    } else {
        let end = text.index_of_first('\n').unwrap();
        if 0 <= end < text.len() {
            seq![without_return(text.take(end))] + lines(text.skip(end + 1))
        } else {
            Seq::empty()
        }
    }
}

/// What a list of texts stands for.
pub open spec fn texts_view(texts: Seq<String>) -> Seq<Seq<char>> {
    texts.map_values(|text: String| text@)
}

/// The lines of a text.
pub(crate) fn split_lines(text: &str) -> (list: Vec<String>)
    ensures
        texts_view(list@) == lines(text@),
{
    let chars = chars_of(text);
    let n: usize = chars.len();
    let mut list: Vec<String> = Vec::new();
    let mut start: usize = 0;
    assert(chars@.skip(0) =~= chars@);
    assert(texts_view(list@) =~= Seq::empty());
    assert(texts_view(list@) + lines(chars@.skip(0)) =~= lines(chars@));
    for i in 0..n
        invariant
            n == chars@.len(),
            start <= i,
            forall|k: int| start <= k < i ==> chars@[k] != '\n',
            texts_view(list@) + lines(chars@.skip(start as int)) == lines(chars@),
    {
        if chars[i] == '\n' {
            let ghost rest = chars@.skip(start as int);
            let ghost before = list@;
            let end: usize = if i > start && chars[i - 1] == '\r' {
                i - 1
            } else {
                i
            };
            proof {
                assert(rest[i - start] == '\n');
                assert(rest.contains('\n'));
                rest.index_of_first_ensures('\n');
                let first = rest.index_of_first('\n').unwrap();
                assert(first == i - start) by {
                    if first < i - start {
                        assert(chars@[start + first] == '\n');
                    }
                }
                assert(rest.take(first) =~= chars@.subrange(start as int, i as int));
                assert(without_return(rest.take(first)) =~= chars@.subrange(
                    start as int,
                    end as int,
                ));
                assert(rest.skip(first + 1) =~= chars@.skip(i + 1));
            }
            list.push(text_of(&chars, start, end));
            start = i + 1;
            assert(texts_view(list@) =~= texts_view(before) + seq![list@.last()@]);
            assert(texts_view(list@) + lines(chars@.skip(start as int)) =~= texts_view(before)
                + lines(rest));
        }
    }
    if start < n {
        let ghost rest = chars@.skip(start as int);
        let ghost before = list@;
        assert(!rest.contains('\n')) by {
            if rest.contains('\n') {
                let k = choose|k: int| 0 <= k < rest.len() && rest[k] == '\n';
                assert(chars@[start + k] == '\n');
            }
        }
        list.push(text_of(&chars, start, n));
        assert(list@.last()@ =~= rest);
        assert(texts_view(list@) =~= texts_view(before) + seq![rest]);
    } else {
        assert(chars@.skip(start as int) =~= Seq::empty());
        assert(texts_view(list@) + Seq::<Seq<char>>::empty() =~= texts_view(list@));
    }
    list
}

/// The texts, each two of them with a line feed in between.
pub open spec fn joined(texts: Seq<Seq<char>>) -> Seq<char>
    decreases texts.len(),
{
    if texts.len() == 0 {
        Seq::empty()
    } else if texts.len() == 1 {
        texts[0]
    } else {
        joined(texts.drop_last()).push('\n') + texts.last()
    }
}

/// The texts in one, each two of them with a line feed in between.
pub fn join_lines(texts: &Vec<String>) -> (text: String)
    ensures
        text@ == joined(texts_view(texts@)),
{
    let n: usize = texts.len();
    let mut text = String::new();
    let ghost all = texts_view(texts@);
    for i in 0..n
        invariant
            n == texts@.len(),
            all == texts_view(texts@),
            text@ == joined(all.take(i as int)),
    {
        if i > 0 {
            text.push('\n');
        }
        text.append(texts[i].as_str());
        assert(all.take(i + 1).drop_last() =~= all.take(i as int));
        assert(all.take(i + 1).last() == texts@[i as int]@);
        assert(text@ =~= joined(all.take(i + 1)));
    }
    assert(all.take(n as int) =~= all);
    text
}

/// The character of a digit.
pub open spec fn digit_char(digit: int) -> char {
    (0x30 + digit) as char
}

/// A number in decimal digits.
pub open spec fn digits(number: nat) -> Seq<char>
    decreases number,
{
    if number < 10 {
        seq![digit_char(number as int)]
    } else {
        digits(number / 10).push(digit_char((number % 10) as int))
    }
}

/// A number in decimal digits, with a minus sign if it is negative.
pub open spec fn decimal(number: int) -> Seq<char> {
    if number < 0 {
        seq!['-'] + digits((-number) as nat)
    } else {
        digits(number as nat)
    }
}

/// Appends a number in decimal digits.
fn push_digits(text: &mut String, number: u32)
    ensures
        final(text)@ == old(text)@ + digits(number as nat),
    decreases number,
{
    let ghost before = text@;
    if number >= 10 {
        push_digits(text, number / 10);
    }
    let digit: u8 = (number % 10) as u8;
    text.push((0x30 + digit) as char);
    assert(text@ =~= before + digits(number as nat));
}

/// Appends a number in decimal digits, with a minus sign if it is negative.
pub(crate) fn push_decimal(text: &mut String, number: i32)
    ensures
        final(text)@ == old(text)@ + decimal(number as int),
{
    let ghost before = text@;
    let magnitude: i64 = number as i64;
    if magnitude < 0 {
        text.push('-');
        push_digits(text, (-magnitude) as u32);
    } else {
        push_digits(text, number as u32);
    }
    assert(text@ =~= before + decimal(number as int));
}

/// Whether all characters are decimal digits.
pub open spec fn all_digits(text: Seq<char>) -> bool {
    forall|i: int| 0 <= i < text.len() ==> '0' <= #[trigger] text[i] <= '9'
}

/// The number that some decimal digits stand for.
pub open spec fn digits_value(text: Seq<char>) -> nat
    decreases text.len(),
{
    if text.len() == 0 {
        0
    } else {
        (digits_value(text.drop_last()) * 10 + (text.last() as u32 - 0x30)) as nat
    }
}

/// The id that a text stands for: decimal digits, at least one, after a sign or none, whose value
/// an id can have.
pub open spec fn id_of(text: Seq<char>) -> Option<i16> {
    let signed = text.len() > 0 && (text[0] == '+' || text[0] == '-');
    let number = if signed {
        text.drop_first()
    } else {
        text
    };
    let value = if signed && text[0] == '-' {
        -(digits_value(number) as int)
    } else {
        digits_value(number) as int
    };
    if number.len() > 0 && all_digits(number) && i16::MIN <= value <= i16::MAX {
        Some(value as i16)
    } else {
        None
    }
}

/// More digits never make a number smaller.
proof fn lemma_digits_grow(text: Seq<char>, n: int)
    requires
        0 <= n <= text.len(),
        all_digits(text),
    ensures
        digits_value(text.take(n)) <= digits_value(text),
    decreases text.len(),
{
    if n == text.len() {
        assert(text.take(n) =~= text);
    } else {
        lemma_digits_grow(text.drop_last(), n);
        assert(text.drop_last().take(n) =~= text.take(n));
        assert(text.last() == text[text.len() - 1]);
    }
}

/// The id that a text stands for.
pub fn parse_id(text: &str) -> (id: Option<i16>)
    ensures
        id == id_of(text@),
{
    let chars = chars_of(text);
    let n: usize = chars.len();
    let negative = n > 0 && chars[0] == '-';
    let start: usize = if n > 0 && (chars[0] == '+' || chars[0] == '-') {
        1
    } else {
        0
    };
    let ghost number = chars@.skip(start as int);
    assert(start == 1 ==> number =~= chars@.drop_first());
    assert(start == 0 ==> number =~= chars@);
    if start == n {
        return None;
    }
    let mut value: i32 = 0;
    assert(number.take(0) =~= Seq::empty());
    for i in start..n
        invariant
            n == chars@.len(),
            start <= n,
            number == chars@.skip(start as int),
            start == 1 ==> number == chars@.drop_first(),
            start == 0 ==> number == chars@,
            start == (if chars@.len() > 0 && (chars@[0] == '+' || chars@[0] == '-') {
                1int
            } else {
                0
            }),
            text@ == chars@,
            0 <= value <= 32768,
            value == digits_value(number.take(i - start)),
            forall|k: int| 0 <= k < i - start ==> '0' <= #[trigger] number[k] <= '9',
    {
        let c = chars[i];
        assert(number[i - start] == c);
        if c < '0' || c > '9' {
            return None;
        }
        assert(number.take(i + 1 - start).drop_last() =~= number.take(i - start));
        value = value * 10 + (c as u32 - 0x30) as i32;
        if value > 32768 {
            proof {
                if all_digits(number) {
                    lemma_digits_grow(number, i + 1 - start);
                }
            }
            return None;
        }
    }
    assert(number.take(n - start) =~= number);
    if negative {
        Some((-value) as i16)
    } else if value == 32768 {
        None
    } else {
        Some(value as i16)
    }
}

/// Whether one text comes before another, by the first character in which they differ; a text comes
/// before those that it starts.
pub open spec fn text_lt(a: Seq<char>, b: Seq<char>) -> bool
    decreases a.len(),
{
    if b.len() == 0 {
        false
    } else if a.len() == 0 {
        true
    } else if a[0] != b[0] {
        a[0] < b[0]
    } else {
        text_lt(a.drop_first(), b.drop_first())
    }
}

/// Of two texts one comes before the other, unless they are the same.
pub proof fn texts_are_ordered(a: Seq<char>, b: Seq<char>)
    ensures
        text_lt(a, b) || text_lt(b, a) || a == b,
        !(text_lt(a, b) && text_lt(b, a)),
        !text_lt(a, a),
    decreases a.len(),
{
    if a.len() > 0 && b.len() > 0 {
        texts_are_ordered(a.drop_first(), b.drop_first());
        if a[0] == b[0] && a.drop_first() == b.drop_first() {
            assert(a =~= seq![a[0]] + a.drop_first());
            assert(b =~= seq![b[0]] + b.drop_first());
        }
    } else if a.len() == 0 && b.len() == 0 {
        assert(a =~= b);
    }
    if a.len() > 0 {
        texts_are_ordered(a.drop_first(), a.drop_first());
    }
}

/// If one text comes before another and that one before a third, the first comes before the third.
pub proof fn texts_in_order_chain(a: Seq<char>, b: Seq<char>, c: Seq<char>)
    requires
        text_lt(a, b),
        text_lt(b, c),
    ensures
        text_lt(a, c),
    decreases a.len(),
{
    if a.len() > 0 && a[0] == b[0] && b[0] == c[0] {
        texts_in_order_chain(a.drop_first(), b.drop_first(), c.drop_first());
    }
}

/// Sorts with `slice::sort` of the standard library. Strings compare by their characters, from the
/// first one on, so the texts end up in that order, none lost and none added.
#[verifier::external_body]
pub(crate) fn sort_texts(texts: &mut Vec<String>)
    ensures
        texts_view(final(texts)@).to_multiset() == texts_view(old(texts)@).to_multiset(),
        forall|i: int, j: int|
            #![trigger final(texts)@[i], final(texts)@[j]]
            0 <= i < j < final(texts)@.len() ==> !text_lt(final(texts)@[j]@, final(texts)@[i]@),
{
    texts.sort();
}

/// The text in lower case, as Unicode has it.
pub uninterp spec fn lowercase(text: Seq<char>) -> Seq<char>;

/// The text in lower case, from `str::to_lowercase`.
#[verifier::external_body]
pub(crate) fn to_lowercase(text: &str) -> (lower: String)
    ensures
        lower@ == lowercase(text@),
{
    text.to_lowercase()
}

} // verus!
