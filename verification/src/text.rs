//! Canonical decimal text of integers and hexadecimal text of bytes.
use vstd::prelude::*;

verus! {

/// The lowercase digit character that stands for `d`, with `0 <= d < 16`.
pub open spec fn digit(d: int) -> char {
    if d < 10 {
        ('0' as int + d) as char
    } else {
        ('a' as int + d - 10) as char
    }
}

/// The decimal digits of `n`, without leading zeros.
pub open spec fn decimal_digits(n: nat) -> Seq<char>
    decreases n,
{
    if n < 10 {
        seq![digit(n as int)]
    } else {
        decimal_digits(n / 10).push(digit((n % 10) as int))
    }
}

/// The canonical decimal text of `n`: its digits, after a minus sign where `n` is negative.
pub open spec fn decimal(n: int) -> Seq<char> {
    if n < 0 {
        seq!['-'] + decimal_digits((-n) as nat)
    } else {
        decimal_digits(n as nat)
    }
}

/// Two lowercase hexadecimal digits for each byte, the high half first.
pub open spec fn hex(bytes: Seq<u8>) -> Seq<char> {
    Seq::new(
        2 * bytes.len(),
        |i: int|
            if i % 2 == 0 {
                digit(bytes[i / 2] as int / 16)
            } else {
                digit(bytes[i / 2] as int % 16)
            },
    )
}

/// The one-character text of a digit.
fn digit_text(d: u8) -> (r: &'static str)
    requires
        d < 16,
    ensures
        r@ == seq![digit(d as int)],
{
    let table = "0123456789abcdef";
    proof {
        reveal_strlit("0123456789abcdef");
    }
    let from: usize = d as usize;
    let r = table.substring_ascii(from, from + 1);
    assert(table@[d as int] == digit(d as int));
    r
}

/// Decimal digits of a magnitude.
fn magnitude_text(n: u128) -> (r: String)
    ensures
        r@ == decimal_digits(n as nat),
    decreases n,
{
    if n < 10 {
        digit_text(n as u8).to_owned()
    } else {
        let mut r = magnitude_text(n / 10);
        r.append(digit_text((n % 10) as u8));
        r
    }
}

/// The canonical decimal text of an integer.
pub fn decimal_text(n: i128) -> (r: String)
    ensures
        r@ == decimal(n as int),
        canonical(r@),
        decimal_value(r@) == n,
{
    proof {
        decimal_text_reads_back(n as int);
    }
    if n >= 0 {
        magnitude_text(n as u128)
    } else {
        // `-(n + 1)` is in range for every negative `n`.
        let magnitude: u128 = (-(n + 1)) as u128 + 1;
        let mut r = "-".to_owned();
        proof {
            reveal_strlit("-");
        }
        r.append(magnitude_text(magnitude).as_str());
        r
    }
}

/// The hexadecimal text of a byte string.
pub fn hex_text(bytes: &[u8]) -> (r: String)
    ensures
        r@ == hex(bytes@),
        r@.len() == 2 * bytes@.len(),
        forall|i: int|
            0 <= i < bytes@.len() ==> #[trigger] bytes@[i] == 16 * hex_digit_value(r@[2 * i])
                + hex_digit_value(r@[2 * i + 1]),
{
    proof {
        hex_text_reads_back(bytes@);
    }
    let mut r = String::new();
    let mut i: usize = 0;
    while i < bytes.len()
        invariant
            i <= bytes@.len(),
            r@ == hex(bytes@.take(i as int)),
        decreases bytes@.len() - i,
    {
        let byte: u8 = bytes[i];
        r.append(digit_text(byte / 16));
        r.append(digit_text(byte % 16));
        i = i + 1;
        assert(r@ =~= hex(bytes@.take(i as int)));
    }
    assert(bytes@.take(i as int) =~= bytes@);
    r
}

proof fn lemma_digit_injective(a: int, b: int)
    requires
        0 <= a < 16,
        0 <= b < 16,
        digit(a) == digit(b),
    ensures
        a == b,
{
}

/// The number that a row of decimal digits stands for.
pub open spec fn digits_value(digits: Seq<char>) -> int
    decreases digits.len(),
{
    if digits.len() == 0 {
        0
    } else {
        10 * digits_value(digits.drop_last()) + (digits.last() as int - '0' as int)
    }
}

/// The number that a decimal text stands for, with or without a minus sign.
pub open spec fn decimal_value(text: Seq<char>) -> int {
    if text.len() > 0 && text[0] == '-' {
        -digits_value(text.drop_first())
    } else {
        digits_value(text)
    }
}

/// Decimal digits and nothing else, at least one, and no zero before another.
pub open spec fn canonical_digits(digits: Seq<char>) -> bool {
    &&& digits.len() > 0
    &&& forall|i: int| 0 <= i < digits.len() ==> '0' <= #[trigger] digits[i] <= '9'
    &&& digits[0] == '0' ==> digits.len() == 1
}

/// Canonical digits, after a minus sign where the number is negative; zero has no sign.
pub open spec fn canonical(text: Seq<char>) -> bool {
    if text.len() > 0 && text[0] == '-' {
        canonical_digits(text.drop_first()) && text[1] != '0'
    } else {
        canonical_digits(text)
    }
}

proof fn lemma_decimal_digits(n: nat)
    ensures
        canonical_digits(decimal_digits(n)),
        decimal_digits(n)[0] == '0' ==> n == 0,
        digits_value(decimal_digits(n)) == n,
    decreases n,
{
    let digits = decimal_digits(n);
    if n < 10 {
        assert(digits.drop_last() =~= Seq::empty());
        assert(digits_value(digits.drop_last()) == 0);
    } else {
        lemma_decimal_digits(n / 10);
        assert(digits.drop_last() =~= decimal_digits(n / 10));
        assert forall|i: int| 0 <= i < digits.len() implies '0' <= #[trigger] digits[i] <= '9' by {
            if i < digits.len() - 1 {
                assert(digits[i] == decimal_digits(n / 10)[i]);
            }
        }
        assert(digits[0] == decimal_digits(n / 10)[0]);
    }
}

/// Decimal text is canonical and reads back as the integer it was made from.
pub proof fn decimal_text_reads_back(n: int)
    ensures
        canonical(decimal(n)),
        decimal_value(decimal(n)) == n,
{
    if n < 0 {
        let digits = decimal_digits((-n) as nat);
        lemma_decimal_digits((-n) as nat);
        assert(decimal(n)[0] == '-');
        assert(decimal(n)[1] == digits[0]);
        assert(decimal(n).drop_first() =~= digits);
    } else {
        lemma_decimal_digits(n as nat);
    }
}

/// Decimal text is exact: two integers with the same text are the same integer.
pub proof fn decimal_text_is_exact(a: int, b: int)
    requires
        decimal(a) == decimal(b),
    ensures
        a == b,
{
    decimal_text_reads_back(a);
    decimal_text_reads_back(b);
}

/// Hexadecimal text is lossless: two byte strings with the same text are the same bytes.
pub proof fn hex_is_lossless(a: Seq<u8>, b: Seq<u8>)
    requires
        hex(a) == hex(b),
    ensures
        a == b,
{
    assert(hex(a).len() == 2 * a.len() && hex(b).len() == 2 * b.len());
    assert forall|i: int| 0 <= i < a.len() implies a[i] == b[i] by {
        let high = 2 * i;
        let low = 2 * i + 1;
        assert(high / 2 == i && high % 2 == 0 && low / 2 == i && low % 2 == 1);
        assert(hex(a)[high] == digit(a[i] as int / 16) && hex(b)[high] == digit(b[i] as int / 16));
        assert(hex(a)[low] == digit(a[i] as int % 16) && hex(b)[low] == digit(b[i] as int % 16));
        lemma_digit_injective(a[i] as int / 16, b[i] as int / 16);
        lemma_digit_injective(a[i] as int % 16, b[i] as int % 16);
    }
    assert(a =~= b);
}

/// The value of a hexadecimal digit, lowercase; `-1` for any other character.
pub open spec fn hex_digit_value(c: char) -> int {
    if '0' <= c <= '9' {
        c as int - '0' as int
    } else if 'a' <= c <= 'f' {
        10 + (c as int - 'a' as int)
    } else {
        -1
    }
}

/// Hexadecimal text says which bytes it stands for: it has two lowercase digits for each byte,
/// and the two digits at a byte's place, the first counting sixteen times, are that byte.
pub proof fn hex_text_reads_back(bytes: Seq<u8>)
    ensures
        hex(bytes).len() == 2 * bytes.len(),
        forall|j: int| 0 <= j < 2 * bytes.len() ==> 0 <= hex_digit_value(#[trigger] hex(bytes)[j]),
        forall|i: int|
            0 <= i < bytes.len() ==> #[trigger] bytes[i] == 16 * hex_digit_value(hex(bytes)[2 * i])
                + hex_digit_value(hex(bytes)[2 * i + 1]),
{
    let text = hex(bytes);
    assert forall|i: int| 0 <= i < bytes.len() implies #[trigger] bytes[i] == 16 * hex_digit_value(
        text[2 * i],
    ) + hex_digit_value(text[2 * i + 1]) by {
        let high = 2 * i;
        let low = 2 * i + 1;
        assert(high / 2 == i && high % 2 == 0 && low / 2 == i && low % 2 == 1);
        assert(text[high] == digit(bytes[i] as int / 16));
        assert(text[low] == digit(bytes[i] as int % 16));
        lemma_hex_digit(bytes[i] as int / 16);
        lemma_hex_digit(bytes[i] as int % 16);
    }
    assert forall|j: int| 0 <= j < 2 * bytes.len() implies 0 <= hex_digit_value(
        #[trigger] text[j],
    ) by {
        lemma_hex_digit(bytes[j / 2] as int / 16);
        lemma_hex_digit(bytes[j / 2] as int % 16);
    }
}

proof fn lemma_hex_digit(d: int)
    requires
        0 <= d < 16,
    ensures
        hex_digit_value(digit(d)) == d,
{
}

} // verus!
