//! Names for accounts, devices, vaults and records.

use crate::text;
use vstd::prelude::*;

verus! {

/// A UUID, as the number it is.
#[derive(Debug, Clone, Copy, PartialEq, Eq, Structural, Hash)]
pub struct Uuid {
    pub value: u128,
}

/// Whether the version and the variant stand where a version 7 UUID has them.
pub open spec fn is_v7(value: u128) -> bool {
    &&& (value / 0x1000_0000_0000_0000_0000) % 16 == 7
    &&& (value / 0x4000_0000_0000_0000) % 4 == 2
}

/// `uuid::Uuid::now_v7`, as a number. Which one depends on the clock and on
/// chance; what every outcome has is version 7 and the RFC variant.
#[verifier::external_body]
fn fresh() -> (value: u128)
    ensures
        is_v7(value),
{
    uuid::Uuid::now_v7().as_u128()
}

/// The lower-case hexadecimal digits of a number, the lowest `width` of them.
pub open spec fn hex_text(n: nat, width: nat) -> Seq<char>
    decreases width,
{
    if width == 0 {
        Seq::empty()
    } else {
        hex_text(n / 16, (width - 1) as nat).push(text::hex_digit((n % 16) as int))
    }
}

/// Whether a dash stands before this digit of a written UUID.
pub open spec fn dash_before(index: int) -> bool {
    index == 8 || index == 12 || index == 16 || index == 20
}

/// Digits with the dashes between the groups of a UUID.
pub open spec fn dashed(digits: Seq<char>) -> Seq<char>
    decreases digits.len(),
{
    if digits.len() == 0 {
        Seq::empty()
    } else if dash_before(digits.len() - 1) {
        dashed(digits.drop_last()).push('-').push(digits.last())
    } else {
        dashed(digits.drop_last()).push(digits.last())
    }
}

/// A UUID as it is written: 32 hexadecimal digits in groups of 8, 4, 4, 4 and
/// 12, with a dash between one group and the next.
pub open spec fn uuid_text(id: Uuid) -> Seq<char> {
    dashed(hex_text(id.value as nat, 32))
}

impl Uuid {
    /// A fresh version 7 UUID.
    pub fn now_v7() -> (id: Uuid)
        ensures
            is_v7(id.value),
    {
        Uuid { value: fresh() }
    }

    /// The UUID as text.
    pub fn hyphenated(self) -> (written: String)
        ensures
            written@ == uuid_text(self),
    {
        let digits: Vec<char> = hex_chars(self.value, 32);
        let mut chars: Vec<char> = Vec::new();
        for i in 0..32
            invariant
                digits@ == hex_text(self.value as nat, 32),
                digits@.len() == 32,
                chars@ == dashed(digits@.take(i as int)),
        {
            if i == 8 || i == 12 || i == 16 || i == 20 {
                chars.push('-');
            }
            chars.push(digits[i]);
            assert(digits@.take(i + 1).drop_last() =~= digits@.take(i as int));
        }
        assert(digits@.take(32) =~= digits@);
        text::string_of(chars.as_slice())
    }
}

/// The lowest hexadecimal digits of a number.
fn hex_chars(n: u128, width: usize) -> (chars: Vec<char>)
    ensures
        chars@ == hex_text(n as nat, width as nat),
        chars@.len() == width,
    decreases width,
{
    if width == 0 {
        Vec::new()
    } else {
        let mut chars: Vec<char> = hex_chars(n / 16, width - 1);
        chars.push(text::hex_char((n % 16) as u8));
        chars
    }
}

proof fn lemma_hex_text_len(n: nat, width: nat)
    ensures
        hex_text(n, width).len() == width,
    decreases width,
{
    if width > 0 {
        lemma_hex_text_len(n / 16, (width - 1) as nat);
    }
}

/// The largest number of that many hexadecimal digits, and one more.
spec fn power16(width: nat) -> nat
    decreases width,
{
    if width == 0 {
        1
    } else {
        16 * power16((width - 1) as nat)
    }
}

proof fn lemma_hex_text_injective(a: nat, b: nat, width: nat)
    requires
        a < power16(width),
        b < power16(width),
        hex_text(a, width) == hex_text(b, width),
    ensures
        a == b,
    decreases width,
{
    if width > 0 {
        let (high_a, high_b) = (hex_text(a / 16, (width - 1) as nat), hex_text(b / 16, (width - 1) as nat));
        assert(hex_text(a, width).drop_last() =~= high_a);
        assert(hex_text(b, width).drop_last() =~= high_b);
        assert(hex_text(a, width).last() == text::hex_digit((a % 16) as int));
        assert(hex_text(b, width).last() == text::hex_digit((b % 16) as int));
        text::lemma_hex_digit_injective((a % 16) as int, (b % 16) as int);
        lemma_hex_text_injective(a / 16, b / 16, (width - 1) as nat);
    }
}

proof fn lemma_dashed_injective(a: Seq<char>, b: Seq<char>)
    requires
        a.len() == b.len(),
        dashed(a) == dashed(b),
    ensures
        a == b,
    decreases a.len(),
{
    if a.len() > 0 {
        let rest_a = dashed(a.drop_last());
        let rest_b = dashed(b.drop_last());
        assert(dashed(a).last() == a.last());
        assert(dashed(b).last() == b.last());
        if dash_before(a.len() - 1) {
            assert(dashed(a).drop_last().drop_last() =~= rest_a);
            assert(dashed(b).drop_last().drop_last() =~= rest_b);
        } else {
            assert(dashed(a).drop_last() =~= rest_a);
            assert(dashed(b).drop_last() =~= rest_b);
        }
        lemma_dashed_injective(a.drop_last(), b.drop_last());
        assert(a =~= a.drop_last().push(a.last()));
        assert(b =~= b.drop_last().push(b.last()));
    }
}

/// No two UUIDs are written alike.
pub proof fn uuid_text_is_unique(a: Uuid, b: Uuid)
    requires
        uuid_text(a) == uuid_text(b),
    ensures
        a == b,
{
    lemma_hex_text_len(a.value as nat, 32);
    lemma_hex_text_len(b.value as nat, 32);
    lemma_dashed_injective(hex_text(a.value as nat, 32), hex_text(b.value as nat, 32));
    reveal_with_fuel(power16, 33);
    lemma_hex_text_injective(a.value as nat, b.value as nat, 32);
}

} // verus!
