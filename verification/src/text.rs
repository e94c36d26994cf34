//! Text as the library handles it: a string is its sequence of characters.

use vstd::prelude::*;
use vstd::string::StringExecFns;

verus! {

broadcast use vstd::string::group_string_axioms;

/// `String::push`: the character goes to the end.
pub assume_specification[ String::push ](target: &mut String, c: char)
    ensures
        final(target)@ == old(target)@.push(c),
;

/// `str::eq`: two strings are equal if they hold the same characters.
pub assume_specification[ <str as PartialEq<str>>::eq ](a: &str, b: &str) -> (same: bool)
    ensures
        same == (a@ == b@),
;

/// The characters that Unicode counts as white space.
pub open spec fn is_white(c: char) -> bool {
    let code = c as u32;
    ||| 0x9 <= code <= 0xd
    ||| code == 0x20
    ||| code == 0x85
    ||| code == 0xa0
    ||| code == 0x1680
    ||| 0x2000 <= code <= 0x200a
    ||| code == 0x2028
    ||| code == 0x2029
    ||| code == 0x202f
    ||| code == 0x205f
    ||| code == 0x3000
}

/// `char::is_whitespace`: the characters with Unicode's `White_Space` property.
pub assume_specification[ char::is_whitespace ](c: char) -> (white: bool)
    ensures
        white == is_white(c),
;

/// The characters that Unicode counts as control codes.
pub open spec fn is_control(c: char) -> bool {
    c as u32 <= 0x1f || 0x7f <= c as u32 <= 0x9f
}

/// `char::is_control`: the characters of Unicode's category `Cc`.
pub assume_specification[ char::is_control ](c: char) -> (control: bool)
    ensures
        control == is_control(c),
;

/// The characters of a string, one by one.
pub fn chars_of(text: &str) -> (chars: Vec<char>)
    ensures
        chars@ == text@,
{
    let mut chars: Vec<char> = Vec::new();
    for c in it: text.chars()
        invariant
            it.seq() == text@,
            chars@ == it.seq().take(it.index() as int),
    {
        chars.push(c);
    }
    assert(chars@ =~= text@);
    chars
}

/// Whether two strings are the same.
pub fn same(a: &str, b: &str) -> (same: bool)
    ensures
        same == (a@ == b@),
{
    a.eq(b)
}

/// The string made of these characters.
pub fn string_of(chars: &[char]) -> (text: String)
    ensures
        text@ == chars@,
{
    let mut text: String = String::new();
    for i in 0..chars.len()
        invariant
            text@ == chars@.take(i as int),
    {
        text.push(chars[i]);
        assert(text@ =~= chars@.take(i + 1));
    }
    assert(text@ =~= chars@);
    text
}

/// A text without the white space at its end.
pub open spec fn trim_end(text: Seq<char>) -> Seq<char>
    decreases text.len(),
{
    if text.len() > 0 && is_white(text.last()) {
        trim_end(text.drop_last())
    } else {
        text
    }
}

/// A text without the white space at its start.
pub open spec fn trim_start(text: Seq<char>) -> Seq<char>
    decreases text.len(),
{
    if text.len() > 0 && is_white(text.first()) {
        trim_start(text.drop_first())
    } else {
        text
    }
}

/// A text without the white space around it.
pub open spec fn trimmed(text: Seq<char>) -> Seq<char> {
    trim_end(trim_start(text))
}

/// The characters without the white space around them.
pub fn trim_chars(chars: &Vec<char>) -> (inner: Vec<char>)
    ensures
        inner@ == trimmed(chars@),
{
    let mut start: usize = 0;
    assert(chars@.skip(0) =~= chars@);
    while start < chars.len() && chars[start].is_whitespace()
        invariant
            start <= chars.len(),
            trim_start(chars@) == trim_start(chars@.skip(start as int)),
        decreases chars.len() - start,
    {
        assert(chars@.skip(start as int).drop_first() =~= chars@.skip(start + 1));
        start = start + 1;
    }
    let ghost rest = chars@.skip(start as int);
    let mut end: usize = chars.len();
    while end > start && chars[end - 1].is_whitespace()
        invariant
            start <= end <= chars.len(),
            rest == chars@.skip(start as int),
            trim_end(rest) == trim_end(chars@.subrange(start as int, end as int)),
        decreases end,
    {
        assert(chars@.subrange(start as int, end as int).drop_last() =~= chars@.subrange(
            start as int,
            end - 1,
        ));
        end = end - 1;
    }
    let mut inner: Vec<char> = Vec::new();
    for i in start..end
        invariant
            start <= end <= chars.len(),
            inner@ == chars@.subrange(start as int, i as int),
    {
        inner.push(chars[i]);
    }
    inner
}

/// A text without the white space around it.
pub fn trim(text: &str) -> (inner: String)
    ensures
        inner@ == trimmed(text@),
{
    let chars: Vec<char> = chars_of(text);
    string_of(trim_chars(&chars).as_slice())
}

/// A text with no white space in it stays as it is.
pub proof fn lemma_trimmed_is_unchanged(text: Seq<char>)
    requires
        forall|i: int| 0 <= i < text.len() ==> !is_white(#[trigger] text[i]),
    ensures
        trimmed(text) == text,
{
}

/// A lower-case hexadecimal digit.
pub open spec fn hex_digit(n: int) -> char {
    if n == 10 {
        'a'
    } else if n == 11 {
        'b'
    } else if n == 12 {
        'c'
    } else if n == 13 {
        'd'
    } else if n == 14 {
        'e'
    } else if n == 15 {
        'f'
    } else {
        digit(n)
    }
}

/// A lower-case hexadecimal digit.
pub fn hex_char(n: u8) -> (c: char)
    requires
        n < 16,
    ensures
        c == hex_digit(n as int),
{
    if n == 10 {
        'a'
    } else if n == 11 {
        'b'
    } else if n == 12 {
        'c'
    } else if n == 13 {
        'd'
    } else if n == 14 {
        'e'
    } else if n == 15 {
        'f'
    } else {
        digit_char(n as u128)
    }
}

pub proof fn lemma_hex_digit_injective(a: int, b: int)
    requires
        0 <= a < 16,
        0 <= b < 16,
        hex_digit(a) == hex_digit(b),
    ensures
        a == b,
{
}

/// The letters, digits and signs of URL-safe base64.
pub open spec fn is_base64url(c: char) -> bool {
    'A' <= c <= 'Z' || 'a' <= c <= 'z' || '0' <= c <= '9' || c == '-' || c == '_'
}

/// A number below ten as its digit.
pub open spec fn digit(n: int) -> char {
    if n == 0 {
        '0'
    } else if n == 1 {
        '1'
    } else if n == 2 {
        '2'
    } else if n == 3 {
        '3'
    } else if n == 4 {
        '4'
    } else if n == 5 {
        '5'
    } else if n == 6 {
        '6'
    } else if n == 7 {
        '7'
    } else if n == 8 {
        '8'
    } else {
        '9'
    }
}

/// A number in decimal, without leading zeros.
pub open spec fn decimal_text(n: nat) -> Seq<char>
    decreases n,
{
    if n < 10 {
        seq![digit(n as int)]
    } else {
        decimal_text(n / 10).push(digit((n % 10) as int))
    }
}

pub fn digit_char(n: u128) -> (c: char)
    requires
        n < 10,
    ensures
        c == digit(n as int),
{
    if n == 0 {
        '0'
    } else if n == 1 {
        '1'
    } else if n == 2 {
        '2'
    } else if n == 3 {
        '3'
    } else if n == 4 {
        '4'
    } else if n == 5 {
        '5'
    } else if n == 6 {
        '6'
    } else if n == 7 {
        '7'
    } else if n == 8 {
        '8'
    } else {
        '9'
    }
}

/// A number in decimal.
pub fn decimal(n: u128) -> (text: String)
    ensures
        text@ == decimal_text(n as nat),
    decreases n,
{
    if n < 10 {
        let mut text: String = String::new();
        text.push(digit_char(n));
        assert(text@ =~= decimal_text(n as nat));
        text
    } else {
        let mut text: String = decimal(n / 10);
        text.push(digit_char(n % 10));
        text
    }
}

/// A number in decimal, with a minus sign in front of one below zero.
pub open spec fn signed_text(n: int) -> Seq<char> {
    if n < 0 {
        seq!['-'] + decimal_text((-n) as nat)
    } else {
        decimal_text(n as nat)
    }
}

/// A number in decimal, with a minus sign in front of one below zero.
pub fn signed(n: i64) -> (text: String)
    ensures
        text@ == signed_text(n as int),
{
    if n < 0 {
        let mut text: String = String::new();
        text.push('-');
        assert(text@ =~= seq!['-']);
        text.concat(decimal((-(n as i128)) as u128).as_str())
    } else {
        decimal(n as u128)
    }
}

/// The pieces of a text between the separators in it. There is always one more
/// than there are separators.
pub open spec fn split(text: Seq<char>, separator: char) -> Seq<Seq<char>>
    decreases text.len(),
{
    if text.len() == 0 {
        seq![Seq::empty()]
    } else {
        let rest = split(text.drop_last(), separator);
        if text.last() == separator {
            rest.push(Seq::empty())
        } else {
            rest.drop_last().push(rest.last().push(text.last()))
        }
    }
}

/// Pieces by their views.
pub open spec fn pieces_view(pieces: Seq<Vec<char>>) -> Seq<Seq<char>> {
    pieces.map_values(|piece: Vec<char>| piece@)
}

/// There is always a piece.
pub proof fn lemma_split_len(text: Seq<char>, separator: char)
    ensures
        split(text, separator).len() >= 1,
    decreases text.len(),
{
    if text.len() > 0 {
        lemma_split_len(text.drop_last(), separator);
    }
}

/// The pieces of a text between the separators in it.
pub fn split_chars(chars: &[char], separator: char) -> (pieces: Vec<Vec<char>>)
    ensures
        pieces_view(pieces@) == split(chars@, separator),
{
    let mut pieces: Vec<Vec<char>> = Vec::new();
    let mut piece: Vec<char> = Vec::new();
    assert(pieces_view(pieces@).push(piece@) =~= split(chars@.take(0), separator));
    for i in 0..chars.len()
        invariant
            split(chars@.take(i as int), separator) == pieces_view(pieces@).push(piece@),
    {
        let ghost done = pieces_view(pieces@);
        let ghost last = piece@;
        assert(chars@.take(i + 1).drop_last() =~= chars@.take(i as int));
        assert(chars@.take(i + 1).last() == chars@[i as int]);
        assert(done.push(last).drop_last() =~= done);
        if chars[i] == separator {
            let mut next: Vec<char> = Vec::new();
            core::mem::swap(&mut piece, &mut next);
            pieces.push(next);
            assert(pieces_view(pieces@) =~= done.push(last));
            assert(piece@ =~= Seq::empty());
        } else {
            piece.push(chars[i]);
        }
    }
    assert(chars@.take(chars@.len() as int) =~= chars@);
    let ghost done = pieces_view(pieces@);
    let ghost last = piece@;
    pieces.push(piece);
    assert(pieces_view(pieces@) =~= done.push(last));
    pieces
}

/// Whether a text begins with another.
pub open spec fn starts_with(text: Seq<char>, start: Seq<char>) -> bool {
    text.len() >= start.len() && text.take(start.len() as int) == start
}

/// Whether a text ends with another.
pub open spec fn ends_with(text: Seq<char>, end: Seq<char>) -> bool {
    text.len() >= end.len() && text.skip(text.len() - end.len()) == end
}

/// Whether the characters from `at` on begin with a text.
fn stands_at(chars: &[char], at: usize, what: &[char]) -> (there: bool)
    requires
        at + what@.len() <= chars@.len(),
    ensures
        there == (chars@.subrange(at as int, at + what@.len()) == what@),
{
    let len: usize = chars.len();
    for i in 0..what.len()
        invariant
            at + what@.len() <= len,
            len == chars@.len(),
            forall|j: int| 0 <= j < i ==> chars@[at + j] == #[trigger] what@[j],
    {
        if chars[at + i] != what[i] {
            assert(chars@.subrange(at as int, at + what@.len())[i as int] != what@[i as int]);
            return false;
        }
    }
    assert(chars@.subrange(at as int, at + what@.len()) =~= what@);
    true
}

/// The characters from one place up to another.
pub fn chars_between(chars: &[char], from: usize, to: usize) -> (between: Vec<char>)
    requires
        from <= to <= chars@.len(),
    ensures
        between@ == chars@.subrange(from as int, to as int),
{
    let mut between: Vec<char> = Vec::new();
    for i in from..to
        invariant
            from <= to <= chars@.len(),
            between@ == chars@.subrange(from as int, i as int),
    {
        between.push(chars[i]);
    }
    between
}

/// What follows a start that a text has.
pub fn strip_prefix(chars: &[char], start: &str) -> (rest: Option<Vec<char>>)
    ensures
        rest is Some <==> starts_with(chars@, start@),
        rest matches Some(rest) ==> rest@ == chars@.skip(start@.len() as int),
{
    let what: Vec<char> = chars_of(start);
    if chars.len() < what.len() {
        return None;
    }
    let there: bool = stands_at(chars, 0, what.as_slice());
    assert(chars@.subrange(0, what@.len() as int) =~= chars@.take(what@.len() as int));
    if there {
        let rest: Vec<char> = chars_between(chars, what.len(), chars.len());
        assert(rest@ =~= chars@.skip(what@.len() as int));
        Some(rest)
    } else {
        None
    }
}

/// What precedes an end that a text has.
pub fn strip_suffix(chars: &[char], end: &str) -> (rest: Option<Vec<char>>)
    ensures
        rest is Some <==> ends_with(chars@, end@),
        rest matches Some(rest) ==> rest@ == chars@.take(chars@.len() - end@.len()),
{
    let what: Vec<char> = chars_of(end);
    if chars.len() < what.len() {
        return None;
    }
    let at: usize = chars.len() - what.len();
    let there: bool = stands_at(chars, at, what.as_slice());
    assert(chars@.subrange(at as int, at + what@.len()) =~= chars@.skip(at as int));
    if there {
        let rest: Vec<char> = chars_between(chars, 0, at);
        assert(rest@ =~= chars@.take(at as int));
        Some(rest)
    } else {
        None
    }
}

/// Whether a character is a decimal digit of ASCII.
pub open spec fn is_digit(c: char) -> bool {
    '0' <= c <= '9'
}

/// Whether a text is made of digits and nothing else.
pub open spec fn all_digits(text: Seq<char>) -> bool {
    forall|i: int| 0 <= i < text.len() ==> is_digit(#[trigger] text[i])
}

/// The number that digits stand for.
pub open spec fn digits_value(text: Seq<char>) -> nat
    decreases text.len(),
{
    if text.len() == 0 {
        0
    } else {
        digits_value(text.drop_last()) * 10 + (text.last() as u32 - '0' as u32) as nat
    }
}

/// A number that is written with digits only, and at least one.
pub open spec fn natural(text: Seq<char>) -> Option<nat> {
    if text.len() > 0 && all_digits(text) {
        Some(digits_value(text))
    } else {
        None
    }
}

/// A number that is written with digits only, where it is not above `most`.
pub fn natural_up_to(chars: &[char], most: u64) -> (number: Option<u64>)
    ensures
        match natural(chars@) {
            Some(n) if n <= most => number == Some(n as u64),
            _ => number is None,
        },
{
    if chars.len() == 0 {
        return None;
    }
    let mut number: u64 = 0;
    let mut over: bool = false;
    for i in 0..chars.len()
        invariant
            chars@.len() > 0,
            forall|j: int| 0 <= j < i ==> is_digit(#[trigger] chars@[j]),
            !over ==> number == digits_value(chars@.take(i as int)) && number <= most,
            over ==> digits_value(chars@.take(i as int)) > most,
    {
        let c: char = chars[i];
        if !('0' <= c && c <= '9') {
            assert(!is_digit(chars@[i as int]));
            return None;
        }
        assert(chars@.take(i + 1).drop_last() =~= chars@.take(i as int));
        assert(chars@.take(i + 1).last() == c);
        let digit: u64 = (c as u32 - '0' as u32) as u64;
        if !over {
            let next: u128 = number as u128 * 10 + digit as u128;
            if next > most as u128 {
                over = true;
            } else {
                number = next as u64;
            }
        }
    }
    assert(chars@.take(chars@.len() as int) =~= chars@);
    if over {
        None
    } else {
        Some(number)
    }
}

/// A number as Rust reads one: digits, with a plus sign in front of them or
/// not.
pub open spec fn unsigned(text: Seq<char>) -> Option<nat> {
    if text.len() > 0 && text[0] == '+' {
        natural(text.skip(1))
    } else {
        natural(text)
    }
}

/// A number as Rust reads one, where it is not above `most`.
pub fn unsigned_up_to(chars: &[char], most: u64) -> (number: Option<u64>)
    ensures
        match unsigned(chars@) {
            Some(n) if n <= most => number == Some(n as u64),
            _ => number is None,
        },
{
    if chars.len() > 0 && chars[0] == '+' {
        let rest: Vec<char> = chars_between(chars, 1, chars.len());
        assert(rest@ =~= chars@.skip(1));
        natural_up_to(rest.as_slice(), most)
    } else {
        natural_up_to(chars, most)
    }
}

/// An ASCII letter in lower case; anything else as it is.
pub open spec fn lower_char(c: char) -> char {
    if 'A' <= c <= 'Z' {
        (c as u8 + 32) as char
    } else {
        c
    }
}

/// A text with its ASCII letters in lower case.
pub open spec fn lower(text: Seq<char>) -> Seq<char> {
    text.map_values(|c: char| lower_char(c))
}

/// A text with its ASCII letters in lower case.
pub fn lowered(chars: &[char]) -> (lowered: Vec<char>)
    ensures
        lowered@ == lower(chars@),
{
    let mut lowered: Vec<char> = Vec::new();
    for i in 0..chars.len()
        invariant
            lowered@ == lower(chars@).take(i as int),
    {
        let c: char = chars[i];
        if 'A' <= c && c <= 'Z' {
            lowered.push((c as u8 + 32) as char);
        } else {
            lowered.push(c);
        }
        assert(lowered@ =~= lower(chars@).take(i + 1));
    }
    assert(lowered@ =~= lower(chars@));
    lowered
}

/// A word as a setting is read: without the white space around it, and in
/// lower case.
pub open spec fn word(text: Seq<char>) -> Seq<char> {
    lower(trimmed(text))
}

/// A word as a setting is read.
pub fn word_of(text: &str) -> (plain: String)
    ensures
        plain@ == word(text@),
{
    let chars: Vec<char> = chars_of(text);
    let inner: Vec<char> = trim_chars(&chars);
    string_of(lowered(inner.as_slice()).as_slice())
}

/// Whether a text holds another.
pub open spec fn contains(text: Seq<char>, what: Seq<char>) -> bool {
    exists|i: int|
        0 <= i <= text.len() - what.len() && #[trigger] text.subrange(i, i + what.len()) == what
}

/// Whether a text holds another.
pub fn holds(chars: &[char], what: &str) -> (there: bool)
    ensures
        there == contains(chars@, what@),
{
    let part: Vec<char> = chars_of(what);
    if chars.len() < part.len() {
        return false;
    }
    let last: usize = chars.len() - part.len();
    let mut at: usize = 0;
    while at <= last
        invariant
            part@ == what@,
            last == chars@.len() - part@.len(),
            at <= last,
            forall|i: int|
                0 <= i < at ==> #[trigger] chars@.subrange(i, i + part@.len()) != part@,
        decreases last + 1 - at,
    {
        let there: bool = stands_at(chars, at, part.as_slice());
        let ghost here = chars@.subrange(at as int, at + part@.len());
        if there {
            assert(here == what@);
            return true;
        }
        if at == last {
            return false;
        }
        at = at + 1;
    }
    false
}

/// A text without the slashes at its end.
pub open spec fn without_slashes(text: Seq<char>) -> Seq<char>
    decreases text.len(),
{
    if text.len() > 0 && text.last() == '/' {
        without_slashes(text.drop_last())
    } else {
        text
    }
}

/// A text without the slashes at its end.
pub fn trim_slashes(chars: &Vec<char>) -> (rest: Vec<char>)
    ensures
        rest@ == without_slashes(chars@),
{
    let mut end: usize = chars.len();
    assert(chars@.take(end as int) =~= chars@);
    while end > 0 && chars[end - 1] == '/'
        invariant
            end <= chars.len(),
            without_slashes(chars@) == without_slashes(chars@.take(end as int)),
        decreases end,
    {
        assert(chars@.take(end as int).drop_last() =~= chars@.take(end - 1));
        end = end - 1;
    }
    let rest: Vec<char> = chars_between(chars.as_slice(), 0, end);
    assert(rest@ =~= chars@.take(end as int));
    rest
}

/// Whether one text comes before another in the order of a dictionary, by the
/// numbers of their characters.
pub open spec fn precedes(a: Seq<char>, b: Seq<char>) -> bool
    decreases a.len(),
{
    if b.len() == 0 {
        false
    } else if a.len() == 0 {
        true
    } else if a[0] != b[0] {
        a[0] < b[0]
    } else {
        precedes(a.skip(1), b.skip(1))
    }
}

/// Whether one text comes before another in the order of a dictionary.
pub fn comes_before(a: &str, b: &str) -> (before: bool)
    ensures
        before == precedes(a@, b@),
{
    let one: Vec<char> = chars_of(a);
    let other: Vec<char> = chars_of(b);
    let mut at: usize = 0;
    assert(one@.skip(0) =~= one@);
    assert(other@.skip(0) =~= other@);
    while at < one.len() && at < other.len()
        invariant
            one@ == a@,
            other@ == b@,
            at <= one.len(),
            at <= other.len(),
            precedes(a@, b@) == precedes(one@.skip(at as int), other@.skip(at as int)),
        decreases one.len() - at,
    {
        assert(one@.skip(at as int)[0] == one@[at as int]);
        assert(other@.skip(at as int)[0] == other@[at as int]);
        if one[at] != other[at] {
            return one[at] < other[at];
        }
        assert(one@.skip(at as int).skip(1) =~= one@.skip(at + 1));
        assert(other@.skip(at as int).skip(1) =~= other@.skip(at + 1));
        at = at + 1;
    }
    at < other.len()
}

/// Of two different texts one comes before the other, and not the other way
/// round.
pub proof fn lemma_precedes_is_total(a: Seq<char>, b: Seq<char>)
    ensures
        precedes(a, b) ==> !precedes(b, a),
        a != b ==> precedes(a, b) || precedes(b, a),
    decreases a.len(),
{
    if a.len() > 0 && b.len() > 0 {
        lemma_precedes_is_total(a.skip(1), b.skip(1));
        if a[0] == b[0] && a.skip(1) == b.skip(1) {
            assert(a =~= seq![a[0]] + a.skip(1));
            assert(b =~= seq![b[0]] + b.skip(1));
        }
    } else if a.len() == 0 && b.len() == 0 {
        assert(a =~= b);
    }
}

/// What comes before what comes before a text comes before it.
pub proof fn lemma_precedes_is_transitive(a: Seq<char>, b: Seq<char>, c: Seq<char>)
    requires
        precedes(a, b),
        precedes(b, c),
    ensures
        precedes(a, c),
    decreases a.len(),
{
    if a.len() > 0 && a[0] == b[0] && b[0] == c[0] {
        lemma_precedes_is_transitive(a.skip(1), b.skip(1), c.skip(1));
    }
}

/// A number in lower-case hexadecimal, without leading zeros.
pub open spec fn hexadecimal_text(n: nat) -> Seq<char>
    decreases n,
{
    if n < 16 {
        seq![hex_digit(n as int)]
    } else {
        hexadecimal_text(n / 16).push(hex_digit((n % 16) as int))
    }
}

/// A number in lower-case hexadecimal.
pub fn hexadecimal(n: u16) -> (text: String)
    ensures
        text@ == hexadecimal_text(n as nat),
    decreases n,
{
    if n < 16 {
        let mut text: String = String::new();
        text.push(hex_char(n as u8));
        assert(text@ =~= hexadecimal_text(n as nat));
        text
    } else {
        let mut text: String = hexadecimal(n / 16);
        text.push(hex_char((n % 16) as u8));
        text
    }
}

/// An optional string as a sequence of characters.
pub open spec fn string_view(text: Option<String>) -> Option<Seq<char>> {
    match text {
        Some(text) => Some(text@),
        None => None,
    }
}

/// An optional text as a sequence of characters.
pub open spec fn str_view(text: Option<&str>) -> Option<Seq<char>> {
    match text {
        Some(text) => Some(text@),
        None => None,
    }
}

/// Strings as sequences of characters.
pub open spec fn strings_view(strings: Seq<String>) -> Seq<Seq<char>> {
    strings.map_values(|string: String| string@)
}

/// A name under a directory, as a path.
pub open spec fn joined(dir: Seq<char>, name: Seq<char>) -> Seq<char> {
    if dir.len() == 0 || dir.last() == '/' {
        dir + name
    } else {
        dir + "/"@ + name
    }
}

/// A name under a directory, as a path.
pub fn join(dir: &str, name: &str) -> (path: String)
    ensures
        path@ == joined(dir@, name@),
{
    let chars: Vec<char> = chars_of(dir);
    if chars.len() == 0 || chars[chars.len() - 1] == '/' {
        dir.to_owned().concat(name)
    } else {
        dir.to_owned().concat("/").concat(name)
    }
}

/// Where a separator stands last in a text, if it does.
pub open spec fn last_of(text: Seq<char>, separator: char) -> Option<int>
    decreases text.len(),
{
    if text.len() == 0 {
        None
    } else if text.last() == separator {
        Some(text.len() - 1)
    } else {
        last_of(text.drop_last(), separator)
    }
}

/// Where a separator stands last, if it does.
pub fn find_last(chars: &Vec<char>, separator: char) -> (at: Option<usize>)
    ensures
        match last_of(chars@, separator) {
            Some(i) => at matches Some(at) && at == i && at < chars@.len(),
            None => at is None,
        },
{
    let mut end: usize = chars.len();
    assert(chars@.take(end as int) =~= chars@);
    while end > 0
        invariant
            end <= chars.len(),
            last_of(chars@, separator) == last_of(chars@.take(end as int), separator),
        decreases end,
    {
        assert(chars@.take(end as int).drop_last() =~= chars@.take(end - 1));
        if chars[end - 1] == separator {
            return Some(end - 1);
        }
        end = end - 1;
    }
    None
}

/// What follows the last place where a text holds another; all of it where it
/// does not.
pub open spec fn after_last(text: Seq<char>, what: Seq<char>) -> Seq<char> {
    after_last_from(text, what, text.len() - what.len())
}

/// What follows the last place up to `at` where a text holds another.
pub open spec fn after_last_from(text: Seq<char>, what: Seq<char>, at: int) -> Seq<char>
    decreases at + 1,
{
    if at < 0 {
        text
    } else if text.subrange(at, at + what.len()) == what {
        text.skip(at + what.len())
    } else {
        after_last_from(text, what, at - 1)
    }
}

/// What follows the last place where a text holds another.
pub fn rest_after_last(chars: &Vec<char>, what: &str) -> (rest: Vec<char>)
    ensures
        rest@ == after_last(chars@, what@),
{
    let part: Vec<char> = chars_of(what);
    if chars.len() >= part.len() {
        let len: usize = chars.len();
        let mut at: usize = len - part.len();
        loop
            invariant
                part@ == what@,
                len == chars@.len(),
                at + part@.len() <= len,
                after_last(chars@, what@) == after_last_from(chars@, what@, at as int),
            ensures
                after_last(chars@, what@) == chars@,
            decreases at,
        {
            if stands_at(chars.as_slice(), at, part.as_slice()) {
                let rest: Vec<char> = chars_between(
                    chars.as_slice(),
                    at + part.len(),
                    chars.len(),
                );
                assert(rest@ =~= chars@.skip(at + part@.len()));
                return rest;
            }
            if at == 0 {
                assert(after_last_from(chars@, what@, -1) == chars@);
                break;
            }
            at = at - 1;
        }
    }
    let all: Vec<char> = chars_between(chars.as_slice(), 0, chars.len());
    assert(all@ =~= chars@);
    all
}

/// What precedes the first separator of a text; all of it where there is none.
pub open spec fn before_first(text: Seq<char>, separator: char) -> Seq<char>
    decreases text.len(),
{
    if text.len() == 0 || text[0] == separator {
        Seq::empty()
    } else {
        seq![text[0]] + before_first(text.skip(1), separator)
    }
}

/// What precedes the first separator of a text.
pub fn start_before(chars: &Vec<char>, separator: char) -> (start: Vec<char>)
    ensures
        start@ == before_first(chars@, separator),
{
    let mut start: Vec<char> = Vec::new();
    let mut at: usize = 0;
    assert(chars@.skip(0) =~= chars@);
    assert(start@ + before_first(chars@, separator) =~= before_first(chars@, separator));
    while at < chars.len() && chars[at] != separator
        invariant
            at <= chars.len(),
            before_first(chars@, separator) == start@ + before_first(
                chars@.skip(at as int),
                separator,
            ),
        decreases chars.len() - at,
    {
        assert(chars@.skip(at as int)[0] == chars@[at as int]);
        assert(chars@.skip(at as int).skip(1) =~= chars@.skip(at + 1));
        let ghost before = start@;
        start.push(chars[at]);
        assert(before + (seq![chars@[at as int]] + before_first(chars@.skip(at + 1), separator))
            =~= start@ + before_first(chars@.skip(at + 1), separator));
        at = at + 1;
    }
    assert(start@ + Seq::<char>::empty() =~= start@);
    start
}

/// A text without the brackets around it.
pub open spec fn unbracketed(text: Seq<char>) -> Seq<char>
    decreases text.len(),
{
    if text.len() > 0 && (text[0] == '[' || text[0] == ']') {
        unbracketed(text.skip(1))
    } else if text.len() > 0 && (text.last() == '[' || text.last() == ']') {
        unbracketed(text.drop_last())
    } else {
        text
    }
}

/// A text without the brackets around it.
pub fn strip_brackets(chars: &Vec<char>) -> (inner: Vec<char>)
    ensures
        inner@ == unbracketed(chars@),
{
    let mut from: usize = 0;
    assert(chars@.subrange(0, chars@.len() as int) =~= chars@);
    while from < chars.len() && (chars[from] == '[' || chars[from] == ']')
        invariant
            from <= chars.len(),
            unbracketed(chars@) == unbracketed(
                chars@.subrange(from as int, chars@.len() as int),
            ),
        decreases chars.len() - from,
    {
        assert(chars@.subrange(from as int, chars@.len() as int).skip(1) =~= chars@.subrange(
            from + 1,
            chars@.len() as int,
        ));
        from = from + 1;
    }
    let mut to: usize = chars.len();
    while to > from && (chars[to - 1] == '[' || chars[to - 1] == ']')
        invariant
            from <= to <= chars.len(),
            from < chars.len() ==> chars@[from as int] != '[' && chars@[from as int] != ']',
            unbracketed(chars@) == unbracketed(chars@.subrange(from as int, to as int)),
        decreases to,
    {
        assert(chars@.subrange(from as int, to as int).drop_last() =~= chars@.subrange(
            from as int,
            to - 1,
        ));
        assert(chars@.subrange(from as int, to as int)[0] == chars@[from as int]);
        to = to - 1;
    }
    let inner: Vec<char> = chars_between(chars.as_slice(), from, to);
    inner
}

} // verus!
