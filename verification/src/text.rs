//! Numbers as text: decimal digits, padding, and reading numbers back.

use vstd::prelude::*;

verus! {

/// The character of a decimal digit.
pub open spec fn digit(d: nat) -> char {
    (48 + d) as char
}

/// A number in decimal, without leading zeros.
pub open spec fn decimal(n: nat) -> Seq<char>
    decreases n,
{
    if n < 10 {
        seq![digit(n)]
    } else {
        decimal(n / 10).push(digit(n % 10))
    }
}

/// A signed number in decimal.
pub open spec fn signed_decimal(v: int) -> Seq<char> {
    if v < 0 {
        seq!['-'] + decimal((-v) as nat)
    } else {
        decimal(v as nat)
    }
}

/// `count` times the character `fill`; nothing if `count` is negative.
pub open spec fn padding(fill: char, count: int) -> Seq<char> {
    Seq::new(
        if count < 0 {
            0
        } else {
            count as nat
        },
        |i: int| fill,
    )
}

/// A text followed by blanks up to the given width.
pub open spec fn flush_left(text: Seq<char>, width: int) -> Seq<char> {
    text + padding(' ', width - text.len())
}

/// A text preceded by `fill` up to the given width.
pub open spec fn flush_right(text: Seq<char>, width: int, fill: char) -> Seq<char> {
    padding(fill, width - text.len()) + text
}

/// The text of a decimal digit.
fn digit_text(d: u64) -> (text: &'static str)
    requires
        d < 10,
    ensures
        text@ == seq![digit(d as nat)],
{
    proof {
        reveal_strlit("0");
        reveal_strlit("1");
        reveal_strlit("2");
        reveal_strlit("3");
        reveal_strlit("4");
        reveal_strlit("5");
        reveal_strlit("6");
        reveal_strlit("7");
        reveal_strlit("8");
        reveal_strlit("9");
    }
    match d {
        0 => "0",
        1 => "1",
        2 => "2",
        3 => "3",
        4 => "4",
        5 => "5",
        6 => "6",
        7 => "7",
        8 => "8",
        _ => "9",
    }
}

/// Appends a number in decimal.
pub fn push_decimal(out: &mut String, n: u64)
    ensures
        final(out)@ == old(out)@ + decimal(n as nat),
    decreases n,
{
    if n >= 10 {
        push_decimal(out, n / 10);
    }
    let ghost before = out@;
    out.append(digit_text(n % 10));
    assert(out@ =~= old(out)@ + decimal(n as nat));
}

/// Appends a signed number in decimal.
pub fn push_signed(out: &mut String, v: i32)
    ensures
        final(out)@ == old(out)@ + signed_decimal(v as int),
{
    if v < 0 {
        proof {
            reveal_strlit("-");
        }
        out.append("-");
        push_decimal(out, (-(v as i64)) as u64);
        assert("-"@ =~= seq!['-']);
        assert(out@ =~= old(out)@ + signed_decimal(v as int));
    } else {
        push_decimal(out, v as u64);
    }
}

/// Appends `fill`, which is one character, `count` times.
fn push_fill(out: &mut String, fill: &str, count: usize)
    requires
        fill@.len() == 1,
    ensures
        final(out)@ == old(out)@ + padding(fill@[0], count as int),
{
    let mut i: usize = 0;
    assert(out@ =~= old(out)@ + padding(fill@[0], 0));
    while i < count
        invariant
            i <= count,
            fill@.len() == 1,
            out@ == old(out)@ + padding(fill@[0], i as int),
        decreases count - i,
    {
        out.append(fill);
        i = i + 1;
        assert(out@ =~= old(out)@ + padding(fill@[0], i as int));
    }
}

/// Appends a text, followed by blanks up to the given width.
pub fn push_flush_left(out: &mut String, text: &str, width: usize)
    ensures
        final(out)@ == old(out)@ + flush_left(text@, width as int),
{
    proof {
        reveal_strlit(" ");
    }
    let len: usize = text.unicode_len();
    out.append(text);
    if len < width {
        push_fill(out, " ", width - len);
    }
    assert(out@ =~= old(out)@ + flush_left(text@, width as int));
}

/// Appends a number in decimal, preceded by blanks or by zeros up to the given
/// width.
pub fn push_flush_right(out: &mut String, n: u64, width: usize, zeros: bool)
    ensures
        final(out)@ == old(out)@ + flush_right(
            decimal(n as nat),
            width as int,
            if zeros {
                '0'
            } else {
                ' '
            },
        ),
{
    proof {
        reveal_strlit(" ");
        reveal_strlit("0");
    }
    let mut text = String::new();
    push_decimal(&mut text, n);
    assert(text@ =~= decimal(n as nat));
    let len: usize = text.as_str().unicode_len();
    if len < width {
        if zeros {
            push_fill(out, "0", width - len);
        } else {
            push_fill(out, " ", width - len);
        }
    }
    out.append(text.as_str());
    assert(out@ =~= old(out)@ + flush_right(
        decimal(n as nat),
        width as int,
        if zeros {
            '0'
        } else {
            ' '
        },
    ));
}

/// The value of a digit in the given radix, which is at most 16.
pub open spec fn digit_value(c: char, radix: nat) -> Option<nat> {
    let code = c as nat;
    let value = if 48 <= code <= 57 {
        (code - 48) as nat
    } else if 97 <= code <= 102 {
        (code - 87) as nat
    } else if 65 <= code <= 70 {
        (code - 55) as nat
    } else {
        radix
    };
    if value < radix {
        Some(value)
    } else {
        None
    }
}

/// The number that the digits spell, most significant digit first; `None` if a
/// character is not a digit.
pub open spec fn digits_value(s: Seq<char>, radix: nat) -> Option<nat>
    decreases s.len(),
{
    if s.len() == 0 {
        Some(0)
    } else {
        match (digits_value(s.drop_last(), radix), digit_value(s.last(), radix)) {
            (Some(front), Some(last)) => Some(front * radix + last),
            _ => None,
        }
    }
}

/// The number that a text spells in the given radix: one or more digits, after
/// an optional plus sign.
pub open spec fn unsigned_value(s: Seq<char>, radix: nat) -> Option<nat> {
    let digits = if s.len() > 0 && s[0] == '+' {
        s.skip(1)
    } else {
        s
    };
    if digits.len() == 0 {
        None
    } else {
        digits_value(digits, radix)
    }
}

/// The number that a text spells: hexadecimal behind `0x` or `0X`, decimal
/// otherwise.
pub open spec fn number_value(s: Seq<char>) -> Option<nat> {
    if s.len() >= 2 && s[0] == '0' && (s[1] == 'x' || s[1] == 'X') {
        unsigned_value(s.skip(2), 16)
    } else {
        unsigned_value(s, 10)
    }
}

/// A number in decimal is read back.
pub proof fn law_decimal_round_trip(n: nat)
    ensures
        number_value(decimal(n)) == Some(n),
{
    lemma_decimal_digits(n);
    let s = decimal(n);
    assert(digit_value(s[0], 10) is Some);
    if s.len() >= 2 {
        assert(digit_value(s[1], 10) is Some);
    }
}

/// A number in decimal is made of digits, which spell the number.
proof fn lemma_decimal_digits(n: nat)
    ensures
        decimal(n).len() > 0,
        digits_value(decimal(n), 10) == Some(n),
        forall|i: int|
            0 <= i < decimal(n).len() ==> digit_value(#[trigger] decimal(n)[i], 10) is Some,
    decreases n,
{
    let s = decimal(n);
    if n < 10 {
        assert(s.drop_last() =~= Seq::<char>::empty());
        assert(digits_value(s.drop_last(), 10) == Some(0nat));
        assert(s.last() == digit(n));
    } else {
        lemma_decimal_digits(n / 10);
        assert(s.drop_last() =~= decimal(n / 10));
        assert(s.last() == digit(n % 10));
    }
}

/// What digits spell in the given radix, most significant digit first.
pub open spec fn in_radix(digits: Seq<nat>, radix: nat) -> nat
    decreases digits.len(),
{
    if digits.len() == 0 {
        0
    } else {
        in_radix(digits.drop_last(), radix) * radix + digits.last()
    }
}

/// Digits that read as the given numbers spell what the numbers spell.
proof fn lemma_digits_spell(text: Seq<char>, digits: Seq<nat>, radix: nat)
    requires
        text.len() == digits.len(),
        forall|i: int|
            0 <= i < text.len() ==> digit_value(#[trigger] text[i], radix) == Some(digits[i]),
    ensures
        digits_value(text, radix) == Some(in_radix(digits, radix)),
    decreases text.len(),
{
    if text.len() > 0 {
        let front = text.drop_last();
        assert forall|i: int| 0 <= i < front.len() implies digit_value(#[trigger] front[i], radix)
            == Some(digits.drop_last()[i]) by {
            assert(front[i] == text[i]);
        }
        lemma_digits_spell(front, digits.drop_last(), radix);
        assert(digit_value(text[text.len() - 1], radix) == Some(digits[text.len() - 1]));
    }
}

/// A hexadecimal number is read as what its digits spell.
///
/// Behind `0x` or `0X`, and an optional plus sign, the characters `0` to `9` and
/// `a` to `f`, in either case, spell a number in radix sixteen.
pub proof fn law_hexadecimal_is_read(text: Seq<char>, digits: Seq<nat>)
    requires
        text.len() == digits.len() > 0,
        forall|i: int|
            0 <= i < text.len() ==> {
                &&& #[trigger] digits[i] < 16
                &&& text[i] == "0123456789abcdef"@[digits[i] as int] || text[i]
                    == "0123456789ABCDEF"@[digits[i] as int]
            },
    ensures
        number_value(seq!['0', 'x'] + text) == Some(in_radix(digits, 16)),
        number_value(seq!['0', 'X'] + text) == Some(in_radix(digits, 16)),
        number_value(seq!['0', 'x', '+'] + text) == Some(in_radix(digits, 16)),
        number_value(seq!['0', 'X', '+'] + text) == Some(in_radix(digits, 16)),
{
    reveal_strlit("0123456789abcdef");
    reveal_strlit("0123456789ABCDEF");
    assert forall|i: int| 0 <= i < text.len() implies digit_value(#[trigger] text[i], 16) == Some(
        digits[i],
    ) by {
        assert(digits[i] < 16);
    }
    lemma_digits_spell(text, digits, 16);
    assert(digits[0] < 16);
    assert(digit_value(text[0], 16) is Some);
    assert((seq!['0', 'x'] + text).skip(2) =~= text);
    assert((seq!['0', 'X'] + text).skip(2) =~= text);
    assert((seq!['0', 'x', '+'] + text).skip(2) =~= seq!['+'] + text);
    assert((seq!['0', 'X', '+'] + text).skip(2) =~= seq!['+'] + text);
    assert((seq!['+'] + text).skip(1) =~= text);
}

/// A decimal number is read as what its digits spell, after an optional plus
/// sign.
pub proof fn law_decimal_is_read(text: Seq<char>, digits: Seq<nat>)
    requires
        text.len() == digits.len() > 0,
        forall|i: int|
            0 <= i < text.len() ==> {
                &&& #[trigger] digits[i] < 10
                &&& text[i] == "0123456789"@[digits[i] as int]
            },
    ensures
        number_value(text) == Some(in_radix(digits, 10)),
        number_value(seq!['+'] + text) == Some(in_radix(digits, 10)),
{
    reveal_strlit("0123456789");
    assert forall|i: int| 0 <= i < text.len() implies digit_value(#[trigger] text[i], 10) == Some(
        digits[i],
    ) by {
        assert(digits[i] < 10);
    }
    lemma_digits_spell(text, digits, 10);
    assert(digit_value(text[0], 10) is Some);
    if text.len() >= 2 {
        assert(digit_value(text[1], 10) is Some);
    }
    assert((seq!['+'] + text).skip(1) =~= text);
}

/// The hexadecimal digits of a number, without leading zeros.
pub open spec fn hexadecimal(n: nat) -> Seq<char>
    decreases n,
{
    if n < 16 {
        seq!["0123456789abcdef"@[n as int]]
    } else {
        hexadecimal(n / 16).push("0123456789abcdef"@[(n % 16) as int])
    }
}

/// The numbers of the hexadecimal digits of a number.
spec fn hexadecimal_digits(n: nat) -> Seq<nat>
    decreases n,
{
    if n < 16 {
        seq![n]
    } else {
        hexadecimal_digits(n / 16).push(n % 16)
    }
}

/// The hexadecimal digits of a number spell it.
proof fn lemma_hexadecimal(n: nat)
    ensures
        ({
            let digits = hexadecimal_digits(n);
            &&& hexadecimal(n).len() == digits.len() > 0
            &&& in_radix(digits, 16) == n
            &&& forall|i: int|
                0 <= i < digits.len() ==> {
                    &&& #[trigger] digits[i] < 16
                    &&& hexadecimal(n)[i] == "0123456789abcdef"@[digits[i] as int]
                }
        }),
    decreases n,
{
    let digits = hexadecimal_digits(n);
    if n < 16 {
        assert(digits.drop_last() =~= Seq::<nat>::empty());
        assert(in_radix(digits.drop_last(), 16) == 0);
    } else {
        lemma_hexadecimal(n / 16);
        assert(digits.drop_last() =~= hexadecimal_digits(n / 16));
    }
}

/// A number in hexadecimal is read back.
pub proof fn law_hexadecimal_round_trip(n: nat)
    ensures
        number_value("0x"@ + hexadecimal(n)) == Some(n),
        number_value("0X"@ + hexadecimal(n)) == Some(n),
{
    reveal_strlit("0x");
    reveal_strlit("0X");
    lemma_hexadecimal(n);
    law_hexadecimal_is_read(hexadecimal(n), hexadecimal_digits(n));
    assert("0x"@ =~= seq!['0', 'x']);
    assert("0X"@ =~= seq!['0', 'X']);
}

/// Every character of a number that is read is one of the given digits.
proof fn lemma_digits_only(text: Seq<char>, radix: nat)
    ensures
        digits_value(text, radix) is Some <==> (forall|i: int|
            0 <= i < text.len() ==> digit_value(#[trigger] text[i], radix) is Some),
    decreases text.len(),
{
    if text.len() > 0 {
        let front = text.drop_last();
        let last = text.len() - 1;
        lemma_digits_only(front, radix);
        if digits_value(text, radix) is Some {
            assert forall|i: int| 0 <= i < text.len() implies digit_value(
                #[trigger] text[i],
                radix,
            ) is Some by {
                if i < last {
                    assert(front[i] == text[i]);
                }
            }
        }
        if forall|i: int|
            0 <= i < text.len() ==> digit_value(#[trigger] text[i], radix) is Some {
            assert forall|i: int| 0 <= i < front.len() implies digit_value(
                #[trigger] front[i],
                radix,
            ) is Some by {
                assert(front[i] == text[i]);
            }
            assert(digit_value(text[last], radix) is Some);
        }
    }
}

/// A character is a digit just if it is one of those of the radix.
proof fn lemma_digit(c: char)
    ensures
        digit_value(c, 10) is Some <==> '0' <= c <= '9',
        digit_value(c, 16) is Some <==> (('0' <= c <= '9') || ('a' <= c <= 'f') || ('A' <= c
            <= 'F')),
{
}

/// Every character is `0` to `9`, or in hexadecimal also `a` to `f` in either case.
pub open spec fn all_digits(text: Seq<char>, hex: bool) -> bool {
    forall|i: int|
        0 <= i < text.len() ==> {
            ||| '0' <= #[trigger] text[i] <= '9'
            ||| hex && 'a' <= text[i] <= 'f'
            ||| hex && 'A' <= text[i] <= 'F'
        }
}

/// What is no number is not read as one.
///
/// A text is read just if it holds at least one digit, and nothing but digits,
/// after an optional plus sign: behind `0x` or `0X` hexadecimal digits, otherwise
/// decimal digits.
pub proof fn law_no_other_text_is_read(digits: Seq<char>)
    requires
        digits.len() > 0 ==> digits[0] != '+',
    ensures
        ({
            let hex = digits.len() > 0 && all_digits(digits, true);
            &&& number_value(seq!['0', 'x'] + digits) is Some <==> hex
            &&& number_value(seq!['0', 'X'] + digits) is Some <==> hex
            &&& number_value(seq!['0', 'x', '+'] + digits) is Some <==> hex
            &&& number_value(seq!['0', 'X', '+'] + digits) is Some <==> hex
        }),
        ({
            let plain = digits.len() > 0 && all_digits(digits, false);
            let prefixed = digits.len() >= 2 && digits[0] == '0' && (digits[1] == 'x' || digits[1]
                == 'X');
            &&& number_value(seq!['+'] + digits) is Some <==> plain
            &&& !prefixed ==> (number_value(digits) is Some <==> plain)
        }),
{
    assert((seq!['0', 'x'] + digits).skip(2) =~= digits);
    assert((seq!['0', 'X'] + digits).skip(2) =~= digits);
    assert((seq!['0', 'x', '+'] + digits).skip(2) =~= seq!['+'] + digits);
    assert((seq!['0', 'X', '+'] + digits).skip(2) =~= seq!['+'] + digits);
    assert((seq!['+'] + digits).skip(1) =~= digits);
    lemma_digits_only(digits, 16);
    lemma_digits_only(digits, 10);
    assert forall|i: int| 0 <= i < digits.len() implies (digit_value(#[trigger] digits[i], 16)
        is Some <==> (('0' <= digits[i] <= '9') || ('a' <= digits[i] <= 'f') || ('A' <= digits[i]
        <= 'F'))) by {
        lemma_digit(digits[i]);
    }
    assert forall|i: int| 0 <= i < digits.len() implies (digit_value(#[trigger] digits[i], 10)
        is Some <==> '0' <= digits[i] <= '9') by {
        lemma_digit(digits[i]);
    }
}

/// A text is made of decimal digits, and they spell the number.
pub open spec fn numeral(text: Seq<char>, n: nat) -> bool {
    exists|digits: Seq<nat>|
        {
            &&& digits.len() == text.len() > 0
            &&& #[trigger] in_radix(digits, 10) == n
            &&& forall|i: int|
                0 <= i < text.len() ==> {
                    &&& #[trigger] digits[i] < 10
                    &&& text[i] == "0123456789"@[digits[i] as int]
                }
        }
}

/// A text spells the number without leading zeros.
pub open spec fn plain_numeral(text: Seq<char>, n: nat) -> bool {
    numeral(text, n) && (text.len() > 1 ==> text[0] != '0')
}

/// A text spells the signed number without leading zeros, behind a minus sign if
/// it is negative.
pub open spec fn signed_numeral(text: Seq<char>, v: int) -> bool {
    if v < 0 {
        text.len() > 1 && text[0] == '-' && plain_numeral(text.skip(1), (-v) as nat)
    } else {
        plain_numeral(text, v as nat)
    }
}

/// Every character is a blank.
pub open spec fn all_blank(text: Seq<char>) -> bool {
    forall|i: int| 0 <= i < text.len() ==> #[trigger] text[i] == ' '
}

/// A numeral spells one number.
pub proof fn law_numeral_spells_one(text: Seq<char>, n: nat, m: nat)
    requires
        numeral(text, n),
        numeral(text, m),
    ensures
        n == m,
{
    reveal_strlit("0123456789");
    let a = choose|digits: Seq<nat>|
        {
            &&& digits.len() == text.len() > 0
            &&& #[trigger] in_radix(digits, 10) == n
            &&& forall|i: int|
                0 <= i < text.len() ==> {
                    &&& #[trigger] digits[i] < 10
                    &&& text[i] == "0123456789"@[digits[i] as int]
                }
        };
    let b = choose|digits: Seq<nat>|
        {
            &&& digits.len() == text.len() > 0
            &&& #[trigger] in_radix(digits, 10) == m
            &&& forall|i: int|
                0 <= i < text.len() ==> {
                    &&& #[trigger] digits[i] < 10
                    &&& text[i] == "0123456789"@[digits[i] as int]
                }
        };
    assert forall|i: int| 0 <= i < text.len() implies #[trigger] a[i] == b[i] by {
        assert(a[i] < 10 && b[i] < 10);
    }
    assert(a =~= b);
}

/// Where a numeral ends in a text does not depend on how it is cut out: texts that
/// start with a numeral and go on with something else are equal just if the numerals
/// and the rests are.
pub proof fn law_numeral_ends(x: Seq<char>, y: Seq<char>, r: Seq<char>, q: Seq<char>, n: nat, m: nat)
    requires
        numeral(x, n),
        numeral(y, m),
        x + r == y + q,
        r.len() > 0,
        q.len() > 0,
        !('0' <= r[0] <= '9'),
        !('0' <= q[0] <= '9'),
    ensures
        x == y,
        r == q,
        n == m,
{
    lemma_numeral_digits(x, n);
    lemma_numeral_digits(y, m);
    if x.len() < y.len() {
        assert((x + r)[x.len() as int] == r[0]);
        assert((y + q)[x.len() as int] == y[x.len() as int]);
    }
    if y.len() < x.len() {
        assert((y + q)[y.len() as int] == q[0]);
        assert((x + r)[y.len() as int] == x[y.len() as int]);
    }
    assert((x + r).take(x.len() as int) =~= x);
    assert((y + q).take(y.len() as int) =~= y);
    assert((x + r).skip(x.len() as int) =~= r);
    assert((y + q).skip(y.len() as int) =~= q);
    law_numeral_spells_one(x, n, m);
}

/// A numeral is made of decimal digits.
proof fn lemma_numeral_digits(text: Seq<char>, n: nat)
    requires
        numeral(text, n),
    ensures
        forall|i: int| 0 <= i < text.len() ==> '0' <= #[trigger] text[i] <= '9',
{
    reveal_strlit("0123456789");
    let digits = choose|digits: Seq<nat>|
        {
            &&& digits.len() == text.len() > 0
            &&& #[trigger] in_radix(digits, 10) == n
            &&& forall|i: int|
                0 <= i < text.len() ==> {
                    &&& #[trigger] digits[i] < 10
                    &&& text[i] == "0123456789"@[digits[i] as int]
                }
        };
    assert forall|i: int| 0 <= i < text.len() implies '0' <= #[trigger] text[i] <= '9' by {
        assert(digits[i] < 10);
    }
}

/// The numbers of the decimal digits of a number.
spec fn decimal_digits(n: nat) -> Seq<nat>
    decreases n,
{
    if n < 10 {
        seq![n]
    } else {
        decimal_digits(n / 10).push(n % 10)
    }
}

/// The decimal digits of a number spell it.
proof fn lemma_decimal(n: nat)
    ensures
        ({
            let digits = decimal_digits(n);
            &&& decimal(n).len() == digits.len() > 0
            &&& in_radix(digits, 10) == n
            &&& digits.len() > 1 ==> digits[0] != 0
            &&& n > 0 ==> digits[0] != 0
            &&& forall|i: int|
                0 <= i < digits.len() ==> {
                    &&& #[trigger] digits[i] < 10
                    &&& decimal(n)[i] == "0123456789"@[digits[i] as int]
                }
        }),
    decreases n,
{
    reveal_strlit("0123456789");
    let digits = decimal_digits(n);
    if n < 10 {
        assert(digits.drop_last() =~= Seq::<nat>::empty());
        assert(in_radix(digits.drop_last(), 10) == 0);
    } else {
        lemma_decimal(n / 10);
        assert(digits.drop_last() =~= decimal_digits(n / 10));
    }
}

/// A number in decimal is the digits that spell it, without leading zeros.
pub proof fn law_decimal(n: nat)
    ensures
        numeral(decimal(n), n),
        decimal(n).len() > 1 ==> decimal(n)[0] != '0',
{
    reveal_strlit("0123456789");
    lemma_decimal(n);
    assert(in_radix(decimal_digits(n), 10) == n);
    assert(decimal_digits(n)[0] < 10);
}

/// A signed number is its digits, behind a minus sign if it is negative.
pub proof fn law_signed_decimal(v: int)
    ensures
        v >= 0 ==> numeral(signed_decimal(v), v as nat),
        v < 0 ==> {
            &&& signed_decimal(v).len() > 1
            &&& signed_decimal(v)[0] == '-'
            &&& numeral(signed_decimal(v).skip(1), (-v) as nat)
        },
        ({
            let digits = if v < 0 {
                signed_decimal(v).skip(1)
            } else {
                signed_decimal(v)
            };
            digits.len() > 1 ==> digits[0] != '0'
        }),
{
    law_decimal(if v < 0 {
        (-v) as nat
    } else {
        v as nat
    });
    if v < 0 {
        assert(signed_decimal(v).skip(1) =~= decimal((-v) as nat));
    }
}

/// Leading zeros do not change what a numeral spells.
proof fn lemma_leading_zeros(digits: Seq<nat>, count: nat)
    ensures
        in_radix(Seq::new(count, |i: int| 0nat) + digits, 10) == in_radix(digits, 10),
    decreases count + digits.len(),
{
    let zeros = Seq::new(count, |i: int| 0nat);
    let all = zeros + digits;
    if digits.len() > 0 {
        assert(all.drop_last() =~= zeros + digits.drop_last());
        lemma_leading_zeros(digits.drop_last(), count);
    } else if count > 0 {
        let fewer = Seq::new((count - 1) as nat, |i: int| 0nat);
        assert(all.drop_last() =~= fewer + digits);
        lemma_leading_zeros(digits, (count - 1) as nat);
    } else {
        assert(all =~= digits);
    }
}

/// A number with leading zeros spells the number in at least as many characters
/// as the width, and in no more than that unless it needs them.
pub proof fn law_zero_filled(n: nat, width: nat)
    ensures
        ({
            let text = flush_right(decimal(n), width as int, '0');
            &&& numeral(text, n)
            &&& text.len() >= width
            &&& text.len() > width && text.len() > 1 ==> text[0] != '0'
        }),
{
    reveal_strlit("0123456789");
    let text = flush_right(decimal(n), width as int, '0');
    let digits = decimal_digits(n);
    let count = (text.len() - decimal(n).len()) as nat;
    let all = Seq::new(count, |i: int| 0nat) + digits;
    lemma_decimal(n);
    law_decimal(n);
    lemma_leading_zeros(digits, count);
    assert(in_radix(all, 10) == n);
    assert forall|i: int| 0 <= i < text.len() implies {
        &&& #[trigger] all[i] < 10
        &&& text[i] == "0123456789"@[all[i] as int]
    } by {
        if i >= count {
            assert(digits[i - count] < 10);
        }
    }
    if count == 0 {
        assert(text =~= decimal(n));
    }
}

/// A number with leading blanks is the number without leading zeros, at the end of
/// as many characters as the width, or more if it needs them.
pub proof fn law_blank_filled(n: nat, width: nat)
    ensures
        ({
            let text = flush_right(decimal(n), width as int, ' ');
            exists|blanks: int|
                {
                    &&& 0 <= blanks < text.len()
                    &&& numeral(#[trigger] text.skip(blanks), n)
                    &&& text.len() - blanks > 1 ==> text[blanks] != '0'
                    &&& text.len() >= width
                    &&& text.len() > width ==> blanks == 0
                    &&& forall|i: int| 0 <= i < blanks ==> text[i] == ' '
                }
        }),
{
    let text = flush_right(decimal(n), width as int, ' ');
    let blanks = text.len() - decimal(n).len();
    law_decimal(n);
    assert(text.skip(blanks) =~= decimal(n));
    assert(text[blanks] == decimal(n)[0]);
}

/// A text that is filled up on the right starts with the text; the rest are
/// blanks, as many as the width asks for.
pub proof fn law_filled_behind(text: Seq<char>, width: nat)
    ensures
        ({
            let filled = flush_left(text, width as int);
            &&& filled.len() == (if text.len() < width {
                width
            } else {
                text.len()
            })
            &&& filled.take(text.len() as int) == text
            &&& forall|i: int| text.len() <= i < filled.len() ==> filled[i] == ' '
        }),
{
    assert(flush_left(text, width as int).take(text.len() as int) =~= text);
}

/// The characters of a text.
fn chars_of(text: &str) -> (chars: Vec<char>)
    ensures
        chars@ == text@,
{
    let mut chars: Vec<char> = Vec::new();
    let count: usize = text.unicode_len();
    let mut i: usize = 0;
    while i < count
        invariant
            i <= count == text@.len(),
            chars@ =~= text@.take(i as int),
        decreases count - i,
    {
        chars.push(text.get_char(i));
        i = i + 1;
    }
    chars
}

/// The value of a digit.
fn read_digit(c: char, radix: u64) -> (value: Option<u64>)
    requires
        2 <= radix <= 16,
    ensures
        match value {
            Some(value) => digit_value(c, radix as nat) == Some(value as nat) && value < radix,
            None => digit_value(c, radix as nat) is None,
        },
{
    let code: u32 = c as u32;
    let value: u64 = if 48 <= code && code <= 57 {
        (code - 48) as u64
    } else if 97 <= code && code <= 102 {
        (code - 87) as u64
    } else if 65 <= code && code <= 70 {
        (code - 55) as u64
    } else {
        radix
    };
    if value < radix {
        Some(value)
    } else {
        None
    }
}

/// More digits make no smaller number.
proof fn lemma_digits_grow(s: Seq<char>, radix: nat, i: int)
    requires
        2 <= radix,
        0 <= i <= s.len(),
    ensures
        digits_value(s, radix) is Some ==> digits_value(s.take(i), radix) is Some && digits_value(
            s.take(i),
            radix,
        )->0 <= digits_value(s, radix)->0,
    decreases s.len() - i,
{
    if i < s.len() {
        lemma_digits_grow(s, radix, i + 1);
        let next = s.take(i + 1);
        assert(next.drop_last() =~= s.take(i));
        if digits_value(next, radix) is Some {
            let front = digits_value(s.take(i), radix)->0;
            assert(front <= front * radix) by (nonlinear_arith)
                requires
                    2 <= radix,
                    0 <= front,
            ;
        }
    } else {
        assert(s.take(i) =~= s);
    }
}

/// Reads digits from `from` on, after an optional plus sign.
fn read_unsigned(chars: &Vec<char>, from: usize, radix: u64) -> (value: Option<u64>)
    requires
        from <= chars@.len(),
        2 <= radix <= 16,
    ensures
        match value {
            Some(value) => unsigned_value(chars@.skip(from as int), radix as nat) == Some(
                value as nat,
            ),
            None => unsigned_value(chars@.skip(from as int), radix as nat) matches Some(big)
                ==> big > u64::MAX,
        },
{
    let len: usize = chars.len();
    let ghost s = chars@.skip(from as int);
    let start: usize = if from < len && chars[from] == '+' {
        from + 1
    } else {
        from
    };
    let ghost digits = chars@.skip(start as int);
    assert(start > from ==> digits =~= s.skip(1));
    if start == len {
        return None;
    }
    let mut value: u64 = 0;
    let mut i: usize = start;
    assert(digits.take(0) =~= Seq::<char>::empty());
    while i < len
        invariant
            start <= i <= len == chars@.len(),
            2 <= radix <= 16,
            digits == chars@.skip(start as int),
            digits.len() > 0,
            unsigned_value(s, radix as nat) == digits_value(digits, radix as nat),
            s == chars@.skip(from as int),
            digits_value(digits.take(i - start), radix as nat) == Some(value as nat),
        decreases len - i,
    {
        proof {
            let next = digits.take(i + 1 - start);
            assert(next.drop_last() =~= digits.take(i - start));
            assert(next.last() == chars@[i as int]);
            lemma_digits_grow(digits, radix as nat, i + 1 - start);
        }
        let digit: u64 = match read_digit(chars[i], radix) {
            Some(digit) => digit,
            None => {
                return None;
            },
        };
        value = match value.checked_mul(radix) {
            Some(product) => match product.checked_add(digit) {
                Some(sum) => sum,
                None => {
                    return None;
                },
            },
            None => {
                return None;
            },
        };
        i = i + 1;
    }
    assert(digits.take(i - start) =~= digits);
    Some(value)
}

/// Parses a number: hexadecimal behind `0x` or `0X`, decimal otherwise.
///
/// # Returns
///
/// Returns `None` if the text is not a number, or the number does not fit.
pub fn parse_u64(value: &str) -> (number: Option<u64>)
    ensures
        match number {
            Some(number) => number_value(value@) == Some(number as nat),
            None => number_value(value@) matches Some(big) ==> big > u64::MAX,
        },
{
    let chars = chars_of(value);
    assert(chars@.skip(0) =~= chars@);
    if chars.len() >= 2 && chars[0] == '0' && (chars[1] == 'x' || chars[1] == 'X') {
        read_unsigned(&chars, 2, 16)
    } else {
        read_unsigned(&chars, 0, 10)
    }
}

} // verus!
