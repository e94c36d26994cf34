//! How texts are taken apart and put together.

use crate::text::{
    after_last, after_last_from, before_first, contains, decimal_text, digit, digits_value,
    ends_with, hex_digit, hexadecimal_text, is_white, joined, last_of, lower, natural, pieces_view,
    precedes, signed_text, split, starts_with, str_view, string_view, strings_view, trim_end,
    trim_start, trimmed, unbracketed, unsigned, without_slashes, word,
};
use vstd::prelude::*;

verus! {

/// A trimmed text is the text without the white space around it: what is gone
/// before and after it is white, and it neither begins nor ends with white
/// space.
pub proof fn trimming_takes_the_white_space_around(text: Seq<char>) -> (at: (int, int))
    ensures
        0 <= at.0 <= at.1 <= text.len(),
        trimmed(text) == text.subrange(at.0, at.1),
        forall|i: int| 0 <= i < at.0 ==> is_white(#[trigger] text[i]),
        forall|i: int| at.1 <= i < text.len() ==> is_white(#[trigger] text[i]),
        trimmed(text).len() > 0 ==> !is_white(trimmed(text)[0]) && !is_white(
            trimmed(text)[trimmed(text).len() - 1],
        ),
{
    let i = lemma_trim_start(text);
    let rest = trim_start(text);
    let j = lemma_trim_end(rest);
    assert(trimmed(text) =~= text.subrange(i, i + j));
    assert forall|k: int| i + j <= k < text.len() implies is_white(#[trigger] text[k]) by {
        assert(rest[k - i] == text[k]);
    }
    if j > 0 {
        assert(trimmed(text)[0] == rest[0]);
    }
    (i, i + j)
}

proof fn lemma_trim_start(text: Seq<char>) -> (i: int)
    ensures
        0 <= i <= text.len(),
        trim_start(text) == text.skip(i),
        forall|k: int| 0 <= k < i ==> is_white(#[trigger] text[k]),
        i < text.len() ==> !is_white(text[i]),
    decreases text.len(),
{
    if text.len() > 0 && is_white(text.first()) {
        let i = lemma_trim_start(text.drop_first());
        assert(text.drop_first().skip(i) =~= text.skip(i + 1));
        assert forall|k: int| 0 <= k < i + 1 implies is_white(#[trigger] text[k]) by {
            if k > 0 {
                assert(text.drop_first()[k - 1] == text[k]);
            }
        }
        i + 1
    } else {
        assert(text.skip(0) =~= text);
        0
    }
}

proof fn lemma_trim_end(text: Seq<char>) -> (j: int)
    ensures
        0 <= j <= text.len(),
        trim_end(text) == text.take(j),
        forall|k: int| j <= k < text.len() ==> is_white(#[trigger] text[k]),
        j > 0 ==> !is_white(text[j - 1]),
    decreases text.len(),
{
    if text.len() > 0 && is_white(text.last()) {
        let j = lemma_trim_end(text.drop_last());
        assert(text.drop_last().take(j) =~= text.take(j));
        assert forall|k: int| j <= k < text.len() implies is_white(#[trigger] text[k]) by {
            if k < text.len() - 1 {
                assert(text.drop_last()[k] == text[k]);
            }
        }
        j
    } else {
        assert(text.take(text.len() as int) =~= text);
        text.len() as int
    }
}

/// White space is blanks, tabs, line ends and their like; of ASCII nothing
/// else. Control characters are those below the blank and the delete character
/// with what follows it.
pub proof fn white_space_and_control_characters(c: char)
    ensures
        (c as u32) < 128 ==> (is_white(c) <==> c == ' ' || c == '\t' || c == '\n' || c == '\r'
            || c as u32 == 11 || c as u32 == 12),
        crate::text::is_control(c) <==> (c as u32) < 32 || 127 <= c as u32 <= 159,
        c as u32 == 0xa0 || c as u32 == 0x3000 ==> is_white(c),
        128 <= c as u32 && is_white(c) ==> c as u32 == 0x85 || c as u32 == 0xa0 || c as u32
            == 0x1680 || 0x2000 <= c as u32 <= 0x200a || c as u32 == 0x2028 || c as u32 == 0x2029
            || c as u32 == 0x202f || c as u32 == 0x205f || c as u32 == 0x3000,
{
}

/// What holds no separator is one piece.
pub proof fn what_holds_no_separator_is_one_piece(text: Seq<char>, separator: char)
    requires
        !text.contains(separator),
    ensures
        split(text, separator) == seq![text],
    decreases text.len(),
{
    if text.len() > 0 {
        let shorter = text.drop_last();
        assert(!shorter.contains(separator)) by {
            if shorter.contains(separator) {
                let i = choose|i: int| 0 <= i < shorter.len() && shorter[i] == separator;
                assert(text[i] == separator);
            }
        }
        what_holds_no_separator_is_one_piece(shorter, separator);
        assert(text[text.len() - 1] == text.last());
        assert(shorter.push(text.last()) =~= text);
        assert(split(text, separator) =~= seq![text]);
    } else {
        assert(text =~= Seq::<char>::empty());
        assert(split(text, separator) =~= seq![text]);
    }
}

/// The pieces on either side of a separator are the pieces of what stands
/// there.
pub proof fn a_separator_parts_the_pieces(a: Seq<char>, separator: char, b: Seq<char>)
    ensures
        split(a + seq![separator] + b, separator) == split(a, separator) + split(b, separator),
        split(a, separator).len() >= 1,
    decreases b.len(),
{
    let whole = a + seq![separator] + b;
    lemma_split_is_some(a, separator);
    if b.len() == 0 {
        assert(whole.drop_last() =~= a);
        assert(whole.last() == separator);
        assert(b =~= Seq::<char>::empty());
        assert(split(whole, separator) =~= split(a, separator) + split(b, separator));
    } else {
        let shorter = a + seq![separator] + b.drop_last();
        assert(whole.drop_last() =~= shorter);
        assert(whole.last() == b.last());
        a_separator_parts_the_pieces(a, separator, b.drop_last());
        lemma_split_is_some(b.drop_last(), separator);
        assert(split(whole, separator) =~= split(a, separator) + split(b, separator));
    }
}

proof fn lemma_split_is_some(text: Seq<char>, separator: char)
    ensures
        split(text, separator).len() >= 1,
    decreases text.len(),
{
    if text.len() > 0 {
        lemma_split_is_some(text.drop_last(), separator);
    }
}

/// A text starts with another where it is the other with something behind it,
/// and ends with one where it is the other with something before it.
pub proof fn starting_and_ending(text: Seq<char>, part: Seq<char>, rest: Seq<char>)
    ensures
        starts_with(part + rest, part),
        ends_with(rest + part, part),
        starts_with(text, part) ==> text == part + text.skip(part.len() as int),
        ends_with(text, part) ==> text == text.take(text.len() - part.len()) + part,
{
    assert((part + rest).take(part.len() as int) =~= part);
    assert((rest + part).skip(rest.len() as int) =~= part);
    if starts_with(text, part) {
        assert(text =~= text.take(part.len() as int) + text.skip(part.len() as int));
    }
    if ends_with(text, part) {
        let at = text.len() - part.len();
        assert(text =~= text.take(at) + text.skip(at));
    }
}

/// A text holds another where it is the other with something around it.
pub proof fn holding(text: Seq<char>, before: Seq<char>, part: Seq<char>, after: Seq<char>)
    ensures
        contains(before + part + after, part),
        contains(text, part) ==> exists|i: int|
            0 <= i <= text.len() - part.len() && text == #[trigger] text.take(i) + part + text.skip(
                i + part.len(),
            ),
{
    let whole = before + part + after;
    let at = before.len() as int;
    assert(whole.subrange(at, at + part.len()) =~= part);
    if contains(text, part) {
        let i = choose|i: int|
            0 <= i <= text.len() - part.len() && #[trigger] text.subrange(i, i + part.len())
                == part;
        assert(text =~= text.take(i) + text.subrange(i, i + part.len()) + text.skip(
            i + part.len(),
        ));
    }
}

/// The ten digits, and the sixteen.
pub proof fn digits_are_what_they_say(n: int)
    ensures
        0 <= n <= 9 ==> digit(n) as u32 == 48 + n,
        0 <= n <= 9 ==> hex_digit(n) as u32 == 48 + n,
        10 <= n <= 15 ==> hex_digit(n) as u32 == 97 + (n - 10),
{
}

/// A number is written so that it is read back, without a nought in front.
pub proof fn a_number_reads_as_it_was_written(n: nat)
    ensures
        natural(decimal_text(n)) == Some(n),
        unsigned(decimal_text(n)) == Some(n),
        decimal_text(n).len() >= 1,
        decimal_text(n).len() > 1 ==> decimal_text(n)[0] != '0',
        n > 0 ==> decimal_text(n)[0] != '0',
        forall|i: int|
            0 <= i < decimal_text(n).len() ==> '0' <= #[trigger] decimal_text(n)[i] <= '9',
    decreases n,
{
    let text = decimal_text(n);
    if n < 10 {
        assert(text.drop_last() =~= Seq::<char>::empty());
        assert(digits_value(text.drop_last()) == 0);
        assert(text.last() == digit(n as int));
        assert(digits_value(text) == n);
    } else {
        a_number_reads_as_it_was_written(n / 10);
        let shorter = decimal_text(n / 10);
        assert(text.drop_last() =~= shorter);
        assert(text.last() == digit((n % 10) as int));
        assert(text[0] == shorter[0]);
        assert(digits_value(text) == n);
        assert forall|i: int| 0 <= i < text.len() implies '0' <= #[trigger] text[i] <= '9' by {
            if i < shorter.len() {
                assert(text[i] == shorter[i]);
            }
        }
    }
    assert(natural(text) == Some(n));
}

/// What digits stand for: each place ten times the next. A number is digits and
/// nothing else, though it may have a plus sign in front.
pub proof fn digits_count_by_tens(text: Seq<char>, d: int)
    requires
        0 <= d <= 9,
    ensures
        digits_value(Seq::empty()) == 0,
        digits_value(text.push(digit(d))) == digits_value(text) * 10 + d,
        natural(text) is Some <==> text.len() > 0 && forall|i: int|
            0 <= i < text.len() ==> '0' <= #[trigger] text[i] <= '9',
        natural(text) is Some ==> natural(text) == Some(digits_value(text)),
        unsigned(seq!['+'] + text) == natural(text),
        text.len() > 0 && text[0] != '+' ==> unsigned(text) == natural(text),
        unsigned(Seq::empty()) is None,
{
    assert(text.push(digit(d)).drop_last() =~= text);
    assert((seq!['+'] + text).skip(1) =~= text);
    if natural(text) is Some {
        assert forall|i: int| 0 <= i < text.len() implies '0' <= #[trigger] text[i] <= '9' by {
            assert(crate::text::is_digit(text[i]));
        }
    }
}

/// A number below nought has a minus sign in front.
pub proof fn signs(n: nat)
    ensures
        signed_text(n as int) == decimal_text(n),
        n > 0 ==> signed_text(-(n as int)) == seq!['-'] + decimal_text(n),
{
}

/// In hexadecimal each place counts sixteen times the next.
pub proof fn hexadecimal_counts_by_sixteens(n: nat, d: nat)
    requires
        d < 16,
    ensures
        hexadecimal_text(d) == seq![hex_digit(d as int)],
        n > 0 ==> hexadecimal_text(n * 16 + d) == hexadecimal_text(n).push(hex_digit(d as int)),
{
    if n > 0 {
        assert((n * 16 + d) / 16 == n);
        assert((n * 16 + d) % 16 == d);
    }
}

/// Small letters stand for capitals, and everything else for itself.
pub proof fn small_letters(text: Seq<char>, i: int)
    requires
        0 <= i < text.len(),
    ensures
        lower(text).len() == text.len(),
        'A' <= text[i] <= 'Z' ==> lower(text)[i] as u32 == text[i] as u32 + 32,
        !('A' <= text[i] <= 'Z') ==> lower(text)[i] == text[i],
        word(text) == lower(trimmed(text)),
{
    let c = text[i];
    if 'A' <= c <= 'Z' {
        assert(lower(text)[i] == (c as u8 + 32) as char);
    }
}

/// Slashes at the end are left away, all of them and nothing else.
pub proof fn slashes_at_the_end_go(text: Seq<char>)
    ensures
        without_slashes(text).len() <= text.len(),
        without_slashes(text) == text.take(without_slashes(text).len() as int),
        forall|i: int|
            without_slashes(text).len() <= i < text.len() ==> #[trigger] text[i] == '/',
        without_slashes(text).len() > 0 ==> without_slashes(text).last() != '/',
    decreases text.len(),
{
    if text.len() > 0 && text.last() == '/' {
        let shorter = text.drop_last();
        slashes_at_the_end_go(shorter);
        let n = without_slashes(shorter).len() as int;
        assert(shorter.take(n) =~= text.take(n));
        assert forall|i: int| n <= i < text.len() implies #[trigger] text[i] == '/' by {
            if i < shorter.len() {
                assert(shorter[i] == text[i]);
            }
        }
    } else {
        assert(text.take(text.len() as int) =~= text);
    }
}

/// Of two texts that begin alike, the one comes first whose next character is
/// the smaller, or that has none.
pub proof fn the_first_difference_decides(a: Seq<char>, b: Seq<char>, k: int)
    requires
        0 <= k <= a.len(),
        k <= b.len(),
        forall|i: int| 0 <= i < k ==> #[trigger] a[i] == b[i],
    ensures
        k < a.len() && k < b.len() && a[k] < b[k] ==> precedes(a, b) && !precedes(b, a),
        k < a.len() && k < b.len() && a[k] > b[k] ==> !precedes(a, b) && precedes(b, a),
        k == a.len() && k < b.len() ==> precedes(a, b) && !precedes(b, a),
        k == a.len() && k == b.len() ==> !precedes(a, b) && !precedes(b, a),
    decreases k,
{
    if k > 0 {
        let (s, t) = (a.skip(1), b.skip(1));
        assert(a[0] == b[0]);
        assert forall|i: int| 0 <= i < k - 1 implies #[trigger] s[i] == t[i] by {
            assert(a[i + 1] == b[i + 1]);
        }
        the_first_difference_decides(s, t, k - 1);
        if k < a.len() {
            assert(s[k - 1] == a[k]);
        }
        if k < b.len() {
            assert(t[k - 1] == b[k]);
        }
    }
}

/// A name in a directory has one slash between the two, where there is none yet
/// and there is a directory.
pub proof fn a_name_in_a_directory(dir: Seq<char>, name: Seq<char>)
    ensures
        joined(Seq::empty(), name) == name,
        joined(dir.push('/'), name) == dir.push('/') + name,
        dir.len() > 0 && dir.last() != '/' ==> joined(dir, name) == dir.push('/') + name,
{
    reveal_strlit("/");
    assert(dir + "/"@ =~= dir.push('/'));
    assert(Seq::<char>::empty() + name =~= name);
}

/// The last place of a character is one where it stands and after which it does
/// not.
pub proof fn the_last_place(text: Seq<char>, separator: char)
    ensures
        last_of(text, separator) is Some <==> text.contains(separator),
        last_of(text, separator) matches Some(at) ==> {
            &&& 0 <= at < text.len()
            &&& text[at] == separator
            &&& forall|i: int| at < i < text.len() ==> #[trigger] text[i] != separator
        },
    decreases text.len(),
{
    if text.len() > 0 && text.last() != separator {
        let shorter = text.drop_last();
        the_last_place(shorter, separator);
        assert(shorter.contains(separator) <==> text.contains(separator)) by {
            if text.contains(separator) {
                let i = choose|i: int| 0 <= i < text.len() && text[i] == separator;
                assert(shorter[i] == separator);
            }
            if shorter.contains(separator) {
                let i = choose|i: int| 0 <= i < shorter.len() && shorter[i] == separator;
                assert(text[i] == separator);
            }
        }
        if let Some(at) = last_of(shorter, separator) {
            assert(text[at] == shorter[at]);
            assert forall|i: int| at < i < text.len() implies #[trigger] text[i] != separator by {
                if i < shorter.len() {
                    assert(shorter[i] == text[i]);
                }
            }
        }
    } else if text.len() > 0 {
        assert(text[text.len() - 1] == separator);
    }
}

/// What follows the last of something in a text, which is the whole of it where
/// it is not there.
pub proof fn what_follows_the_last(text: Seq<char>, what: Seq<char>, at: int)
    requires
        0 <= at <= text.len() - what.len(),
        text.subrange(at, at + what.len()) == what,
        forall|i: int|
            at < i <= text.len() - what.len() ==> #[trigger] text.subrange(i, i + what.len())
                != what,
    ensures
        after_last(text, what) == text.skip(at + what.len()),
{
    lemma_after_last_from(text, what, text.len() - what.len(), at);
}

proof fn lemma_after_last_from(text: Seq<char>, what: Seq<char>, from: int, at: int)
    requires
        0 <= at <= from <= text.len() - what.len(),
        text.subrange(at, at + what.len()) == what,
        forall|i: int|
            at < i <= from ==> #[trigger] text.subrange(i, i + what.len()) != what,
    ensures
        after_last_from(text, what, from) == text.skip(at + what.len()),
    decreases from,
{
    if from > at {
        lemma_after_last_from(text, what, from - 1, at);
    }
}

/// Where something is not in a text, the whole of it follows.
pub proof fn what_is_not_there_has_all_behind_it(text: Seq<char>, what: Seq<char>)
    requires
        !contains(text, what),
    ensures
        after_last(text, what) == text,
{
    lemma_nothing_from(text, what, text.len() - what.len());
}

proof fn lemma_nothing_from(text: Seq<char>, what: Seq<char>, from: int)
    requires
        !contains(text, what),
        from <= text.len() - what.len(),
    ensures
        after_last_from(text, what, from) == text,
    decreases from + 1,
{
    if from >= 0 {
        assert(text.subrange(from, from + what.len()) != what);
        lemma_nothing_from(text, what, from - 1);
    }
}

/// What comes before the first of a character: nothing of it, and then it or
/// the end.
pub proof fn what_comes_before_the_first(text: Seq<char>, separator: char)
    ensures
        ({
            let n = before_first(text, separator).len() as int;
            &&& n <= text.len()
            &&& before_first(text, separator) == text.take(n)
            &&& forall|i: int| 0 <= i < n ==> #[trigger] text[i] != separator
            &&& n < text.len() ==> text[n] == separator
        }),
    decreases text.len(),
{
    if text.len() > 0 && text[0] != separator {
        let rest = text.skip(1);
        what_comes_before_the_first(rest, separator);
        let n = before_first(rest, separator).len() as int;
        assert(before_first(text, separator) =~= text.take(n + 1));
        assert forall|i: int| 0 <= i < n + 1 implies #[trigger] text[i] != separator by {
            if i > 0 {
                assert(rest[i - 1] == text[i]);
            }
        }
        if n + 1 < text.len() {
            assert(rest[n] == text[n + 1]);
        }
    } else {
        assert(text.take(0) =~= Seq::empty());
    }
}

/// Brackets around a text go, all of them and nothing else.
pub proof fn brackets_around_go(text: Seq<char>) -> (at: (int, int))
    ensures
        0 <= at.0 <= at.1 <= text.len(),
        unbracketed(text) == text.subrange(at.0, at.1),
        forall|i: int|
            0 <= i < at.0 || at.1 <= i < text.len() ==> #[trigger] text[i] == '[' || text[i]
                == ']',
        at.0 < at.1 ==> text[at.0] != '[' && text[at.0] != ']' && text[at.1 - 1] != '['
            && text[at.1 - 1] != ']',
    decreases text.len(),
{
    if text.len() > 0 && (text[0] == '[' || text[0] == ']') {
        let rest = text.skip(1);
        let (i, j) = brackets_around_go(rest);
        assert(rest.subrange(i, j) =~= text.subrange(i + 1, j + 1));
        assert forall|k: int|
            0 <= k < i + 1 || j + 1 <= k < text.len() implies #[trigger] text[k] == '[' || text[k]
            == ']' by {
            if k > 0 {
                assert(rest[k - 1] == text[k]);
            }
        }
        if i < j {
            assert(rest[i] == text[i + 1] && rest[j - 1] == text[j]);
        }
        (i + 1, j + 1)
    } else if text.len() > 0 && (text.last() == '[' || text.last() == ']') {
        let rest = text.drop_last();
        let (i, j) = brackets_around_go(rest);
        assert(rest.subrange(i, j) =~= text.subrange(i, j));
        assert forall|k: int|
            0 <= k < i || j <= k < text.len() implies #[trigger] text[k] == '[' || text[k]
            == ']' by {
            if k < rest.len() {
                assert(rest[k] == text[k]);
            }
        }
        if i < j {
            assert(rest[i] == text[i] && rest[j - 1] == text[j - 1]);
        }
        (i, j)
    } else {
        assert(text.subrange(0, text.len() as int) =~= text);
        (0, text.len() as int)
    }
}

/// A text in a string is the characters of it, one by one.
pub proof fn texts_are_their_characters(
    strings: Seq<String>,
    pieces: Seq<Vec<char>>,
    text: String,
    i: int,
)
    ensures
        strings_view(strings).len() == strings.len(),
        0 <= i < strings.len() ==> strings_view(strings)[i] == strings[i]@,
        pieces_view(pieces).len() == pieces.len(),
        0 <= i < pieces.len() ==> pieces_view(pieces)[i] == pieces[i]@,
        string_view(Some(text)) == Some(text@),
        string_view(None) is None,
        str_view(None) is None,
{
}

} // verus!
