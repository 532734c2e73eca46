//! Text: white space around it, numbers written in it, and the characters it is made of.
use vstd::arithmetic::power::pow;
use vstd::prelude::*;

verus! {

/// [`String::push`] appends a character at the end.
pub assume_specification[ String::push ](text: &mut String, c: char)
    ensures
        final(text)@ == old(text)@.push(c),
;

/// The characters of a text, one by one.
pub(crate) fn characters(text: &str) -> (characters: Vec<char>)
    ensures
        characters@ == text@,
{
    let mut characters: Vec<char> = Vec::new();
    for c in it: text.chars()
        invariant
            it.seq() == text@,
            characters@ == it.seq().take(it.index()),
    {
        characters.push(c);
        assert(it.seq().take(it.index() + 1) =~= it.seq().take(it.index()).push(c));
    }
    assert(characters@ =~= text@);
    characters
}

/// Unicode's `White_Space` property.
pub open spec fn is_white_space(c: char) -> bool {
    let n = c as u32;
    ||| 0x9 <= n <= 0xd
    ||| n == 0x20
    ||| n == 0x85
    ||| n == 0xa0
    ||| n == 0x1680
    ||| 0x2000 <= n <= 0x200a
    ||| n == 0x2028
    ||| n == 0x2029
    ||| n == 0x202f
    ||| n == 0x205f
    ||| n == 0x3000
}

/// Tells whether a character is white space.
pub fn white_space(c: char) -> (white: bool)
    ensures
        white == is_white_space(c),
{
    let n: u32 = c as u32;
    (0x9 <= n && n <= 0xd) || n == 0x20 || n == 0x85 || n == 0xa0 || n == 0x1680 || (0x2000 <= n
        && n <= 0x200a) || n == 0x2028 || n == 0x2029 || n == 0x202f || n == 0x205f || n == 0x3000
}

/// `text` without the white space that it starts with.
pub open spec fn trimmed_start(text: Seq<char>) -> Seq<char>
    decreases text.len(),
{
    if text.len() > 0 && is_white_space(text.first()) {
        trimmed_start(text.drop_first())
    } else {
        text
    }
}

/// `text` without the white space that it ends with.
pub open spec fn trimmed_end(text: Seq<char>) -> Seq<char>
    decreases text.len(),
{
    if text.len() > 0 && is_white_space(text.last()) {
        trimmed_end(text.drop_last())
    } else {
        text
    }
}

/// `text` without the white space around it.
pub open spec fn trimmed(text: Seq<char>) -> Seq<char> {
    trimmed_end(trimmed_start(text))
}

/// Where the text within the white space around it starts and ends.
fn trim(text: &Vec<char>) -> (bounds: (usize, usize))
    ensures
        bounds.0 <= bounds.1 <= text@.len(),
        text@.subrange(bounds.0 as int, bounds.1 as int) == trimmed(text@),
{
    let len: usize = text.len();
    let mut start: usize = 0;
    assert(text@.subrange(0, len as int) =~= text@);
    while start < len && white_space(text[start])
        invariant
            start <= len,
            len == text@.len(),
            trimmed_start(text@.subrange(start as int, len as int)) == trimmed_start(text@),
        decreases len - start,
    {
        assert(text@.subrange(start as int, len as int).drop_first() =~= text@.subrange(
            start + 1,
            len as int,
        ));
        start = start + 1;
    }
    let mut end: usize = len;
    while start < end && white_space(text[end - 1])
        invariant
            start <= end <= len,
            len == text@.len(),
            trimmed_end(text@.subrange(start as int, end as int)) == trimmed(text@),
        decreases end,
    {
        assert(text@.subrange(start as int, end as int).drop_last() =~= text@.subrange(
            start as int,
            end - 1,
        ));
        end = end - 1;
    }
    (start, end)
}

/// White space around a text makes no difference to it once trimmed.
pub proof fn law_white_space_around_is_ignored(
    before: Seq<char>,
    text: Seq<char>,
    after: Seq<char>,
)
    requires
        forall|i: int| 0 <= i < before.len() ==> is_white_space(#[trigger] before[i]),
        forall|i: int| 0 <= i < after.len() ==> is_white_space(#[trigger] after[i]),
    ensures
        trimmed(before + text + after) == trimmed(text),
    decreases before.len() + after.len(),
{
    let whole = before + text + after;
    if before.len() > 0 {
        assert(whole.first() == before[0]);
        assert(whole.drop_first() =~= before.drop_first() + text + after);
        law_white_space_around_is_ignored(before.drop_first(), text, after);
    } else if after.len() > 0 {
        lemma_trailing_white_space(text + after.drop_last(), after.last());
        assert(whole =~= (text + after.drop_last()).push(after.last()));
        assert(before + text + after.drop_last() =~= text + after.drop_last());
        law_white_space_around_is_ignored(before, text, after.drop_last());
    } else {
        assert(whole =~= text);
    }
}

proof fn lemma_trailing_white_space(text: Seq<char>, c: char)
    requires
        is_white_space(c),
    ensures
        trimmed(text.push(c)) == trimmed(text),
    decreases text.len(),
{
    let longer = text.push(c);
    if text.len() > 0 && is_white_space(text.first()) {
        assert(longer.drop_first() =~= text.drop_first().push(c));
        lemma_trailing_white_space(text.drop_first(), c);
    } else if text.len() > 0 {
        assert(longer.drop_last() =~= text);
    } else {
        assert(longer.drop_first() =~= Seq::<char>::empty());
        assert(text =~= Seq::<char>::empty());
        assert(trimmed_start(longer) == trimmed_start(longer.drop_first()));
    }
}

/// A decimal digit.
pub open spec fn is_digit(c: char) -> bool {
    '0' <= c && c <= '9'
}

/// The number that a row of decimal digits stands for.
pub open spec fn number(digits: Seq<char>) -> nat
    decreases digits.len(),
{
    if digits.len() == 0 {
        0
    } else {
        (10 * number(digits.drop_last()) + (digits.last() as int - '0' as int)) as nat
    }
}

/// The digits of a number that may have a plus sign in front.
pub open spec fn unsigned_digits(text: Seq<char>) -> Seq<char> {
    if text.len() > 0 && text[0] == '+' {
        text.skip(1)
    } else {
        text
    }
}

/// The `u64` that `text` is the decimal notation of: digits only, at least one, behind a plus
/// sign or none.
pub open spec fn parsed(text: Seq<char>) -> Option<u64> {
    let digits = unsigned_digits(text);
    if digits.len() > 0 && (forall|i: int| 0 <= i < digits.len() ==> is_digit(#[trigger] digits[i]))
        && number(digits) <= u64::MAX {
        Some(number(digits) as u64)
    } else {
        None
    }
}

/// Further digits never make a number smaller.
proof fn lemma_number_grows(digits: Seq<char>, n: int)
    requires
        0 <= n <= digits.len(),
        forall|i: int| 0 <= i < digits.len() ==> is_digit(#[trigger] digits[i]),
    ensures
        number(digits.take(n)) <= number(digits),
    decreases digits.len(),
{
    if n < digits.len() {
        let fewer = digits.drop_last();
        assert(fewer.take(n) =~= digits.take(n));
        assert(is_digit(digits[digits.len() - 1]));
        assert forall|i: int| 0 <= i < fewer.len() implies is_digit(#[trigger] fewer[i]) by {
            assert(is_digit(digits[i]));
        }
        lemma_number_grows(fewer, n);
    } else {
        assert(digits.take(n) =~= digits);
    }
}

/// Reads a number, white space around it aside.
pub fn parse_trimmed(text: &str) -> (n: Option<u64>)
    ensures
        n == parsed(trimmed(text@)),
{
    let chars: Vec<char> = characters(text);
    let (start, end): (usize, usize) = trim(&chars);
    let ghost whole = trimmed(text@);
    let first: usize = if start < end && chars[start] == '+' {
        start + 1
    } else {
        start
    };
    let ghost digits = unsigned_digits(whole);
    assert(digits =~= chars@.subrange(first as int, end as int));
    if first == end {
        return None;
    }
    let mut n: u64 = 0;
    let mut i: usize = first;
    assert(digits.take(0) =~= Seq::<char>::empty());
    while i < end
        invariant
            first <= i <= end <= chars@.len(),
            digits == chars@.subrange(first as int, end as int),
            digits == unsigned_digits(whole),
            chars@ == text@,
            whole == trimmed(text@),
            n == number(digits.take(i - first)),
            forall|k: int| 0 <= k < i - first ==> is_digit(#[trigger] digits[k]),
        decreases end - i,
    {
        let c: char = chars[i];
        assert(c == digits[i - first]);
        if c < '0' || '9' < c {
            return None;
        }
        let d: u64 = (c as u32 - '0' as u32) as u64;
        proof {
            assert(digits.take(i - first + 1).drop_last() =~= digits.take(i - first));
            assert(number(digits.take(i - first + 1)) == 10 * n + d);
            if 10 * n + d > u64::MAX && parsed(whole) is Some {
                lemma_number_grows(digits, i - first + 1);
            }
        }
        if n > u64::MAX / 10 {
            return None;
        }
        if 10 * n > u64::MAX - d {
            return None;
        }
        n = 10 * n + d;
        i = i + 1;
    }
    assert(digits.take(end - first) =~= digits);
    Some(n)
}

/// The character of a decimal digit.
pub open spec fn digit(d: nat) -> char {
    ('0' as int + d) as char
}

/// The decimal notation of a number.
pub open spec fn decimal(n: nat) -> Seq<char>
    decreases n,
{
    if n < 10 {
        seq![digit(n)]
    } else {
        decimal(n / 10).push(digit(n % 10))
    }
}

/// The decimal notation of an integer, with a minus sign in front where it is below zero.
pub open spec fn signed_decimal(n: int) -> Seq<char> {
    if n < 0 {
        seq!['-'] + decimal((-n) as nat)
    } else {
        decimal(n as nat)
    }
}

/// Appends the decimal notation of a number.
pub(crate) fn push_decimal(text: &mut String, n: u64)
    ensures
        final(text)@ == old(text)@ + decimal(n as nat),
    decreases n,
{
    if n >= 10 {
        push_decimal(text, n / 10);
    }
    let d: u8 = (n % 10) as u8;
    let c: char = (48u8 + d) as char;
    text.push(c);
    assert(c == digit((n % 10) as nat));
    assert(text@ =~= old(text)@ + decimal(n as nat));
}

/// Appends the decimal notation of an integer.
pub(crate) fn push_signed_decimal(text: &mut String, n: i16)
    ensures
        final(text)@ == old(text)@ + signed_decimal(n as int),
{
    if n < 0 {
        text.push('-');
        push_decimal(text, (-(n as i64)) as u64);
        assert(text@ =~= old(text)@ + signed_decimal(n as int));
    } else {
        push_decimal(text, n as u64);
    }
}

/// The decimal notation of a number is read as that number.
pub proof fn law_decimal_is_read_back(n: u64)
    ensures
        parsed(trimmed(decimal(n as nat))) == Some(n),
{
    lemma_decimal(n as nat);
    let text = decimal(n as nat);
    assert(is_digit(text[0]) && is_digit(text[text.len() - 1]));
    assert(trimmed(text) == text);
    assert(unsigned_digits(text) == text);
}

/// The decimal notation of a number is a row of digits that stands for it.
proof fn lemma_decimal(n: nat)
    ensures
        decimal(n).len() > 0,
        forall|i: int| 0 <= i < decimal(n).len() ==> is_digit(#[trigger] decimal(n)[i]),
        number(decimal(n)) == n,
    decreases n,
{
    if n < 10 {
        reveal_with_fuel(number, 2);
        assert(decimal(n).drop_last() =~= Seq::<char>::empty());
    } else {
        lemma_decimal(n / 10);
        assert(decimal(n).drop_last() =~= decimal(n / 10));
    }
}

/// Different integers have different decimal notations.
pub proof fn law_decimals_differ(a: int, b: int)
    requires
        signed_decimal(a) == signed_decimal(b),
    ensures
        a == b,
{
    lemma_decimal(if a < 0 {
        (-a) as nat
    } else {
        a as nat
    });
    lemma_decimal(if b < 0 {
        (-b) as nat
    } else {
        b as nat
    });
    if a < 0 {
        assert(signed_decimal(a)[0] == '-');
        assert(signed_decimal(a).skip(1) =~= decimal((-a) as nat));
    } else {
        assert(is_digit(signed_decimal(a)[0]));
    }
    if b < 0 {
        assert(signed_decimal(b)[0] == '-');
        assert(signed_decimal(b).skip(1) =~= decimal((-b) as nat));
    } else {
        assert(is_digit(signed_decimal(b)[0]));
    }
}

/// The decimal notation of a number is made of digits alone: the digit at the place of the ones,
/// the tens and so on is that of the number. It has no more of them than it needs, so none but
/// that of zero itself has a zero in front.
pub proof fn law_decimal_has_the_digits_of_the_number(n: nat)
    ensures
        decimal(n).len() > 0,
        forall|k: int|
            #![trigger decimal(n)[decimal(n).len() - 1 - k]]
            0 <= k < decimal(n).len() ==> decimal(n)[decimal(n).len() - 1 - k] as int == 48 + (n
                as int / pow(10, k as nat)) % 10,
        n < pow(10, decimal(n).len()),
        n > 0 ==> pow(10, (decimal(n).len() - 1) as nat) <= n,
        n > 0 ==> decimal(n)[0] != '0',
        n == 0 ==> decimal(n) == seq!['0'],
    decreases n,
{
    let text = decimal(n);
    reveal_with_fuel(pow, 2);
    if n < 10 {
        assert(pow(10, 0) == 1 && pow(10, 1) == 10);
        assert forall|k: int|
            #![trigger text[text.len() - 1 - k]]
            0 <= k < text.len() implies text[text.len() - 1 - k] as int == 48 + (n as int / pow(
            10,
            k as nat,
        )) % 10 by {
            assert(k == 0);
        }
    } else {
        let fewer = decimal(n / 10);
        law_decimal_has_the_digits_of_the_number(n / 10);
        assert(pow(10, text.len()) == 10 * pow(10, fewer.len()));
        assert(pow(10, fewer.len()) == 10 * pow(10, (fewer.len() - 1) as nat));
        assert(text[0] == fewer[0]);
        assert forall|k: int|
            #![trigger text[text.len() - 1 - k]]
            0 <= k < text.len() implies text[text.len() - 1 - k] as int == 48 + (n as int / pow(
            10,
            k as nat,
        )) % 10 by {
            if k == 0 {
                assert(pow(10, 0) == 1);
            } else {
                let l = k - 1;
                assert(text[text.len() - 1 - k] == fewer[fewer.len() - 1 - l]);
                assert(pow(10, k as nat) == 10 * pow(10, l as nat));
                vstd::arithmetic::power::lemma_pow_positive(10, l as nat);
                vstd::arithmetic::div_mod::lemma_div_denominator(n as int, 10, pow(10, l as nat));
                assert((n / 10) as int == n as int / 10);
            }
        }
    }
}

/// A digit stands for the number that it is.
pub proof fn law_number_of_a_digit(c: char)
    requires
        '0' <= c && c <= '9',
    ensures
        number(seq![c]) == c as int - 48,
{
    reveal_with_fuel(number, 2);
    assert(seq![c].drop_last() =~= Seq::<char>::empty());
}

/// Digits that follow move those before them as many places up as they are.
pub proof fn law_number_goes_by_places(before: Seq<char>, after: Seq<char>)
    requires
        forall|i: int| 0 <= i < before.len() ==> '0' <= #[trigger] before[i] && before[i] <= '9',
        forall|i: int| 0 <= i < after.len() ==> '0' <= #[trigger] after[i] && after[i] <= '9',
    ensures
        number(before + after) == number(before) * pow(10, after.len()) + number(after),
    decreases after.len(),
{
    reveal_with_fuel(pow, 2);
    if after.len() == 0 {
        assert(before + after =~= before);
        assert(pow(10, 0) == 1);
    } else {
        let fewer = after.drop_last();
        law_number_goes_by_places(before, fewer);
        assert((before + after).drop_last() =~= before + fewer);
        assert(pow(10, after.len()) == 10 * pow(10, fewer.len()));
        let d = after.last() as int - 48;
        let a = number(before) as int;
        let p = pow(10, fewer.len());
        let b = number(fewer) as int;
        assert('0' <= after[after.len() - 1]);
        assert(number(before + after) == 10 * (a * p + b) + d);
        assert(number(after) == 10 * b + d);
        assert(10 * (a * p + b) + d == a * (10 * p) + (10 * b + d)) by (nonlinear_arith);
    }
}

/// A row of digits with no zero in front, or a single zero, is the decimal notation of the number
/// that it stands for.
pub proof fn law_decimal_is_the_only_notation(digits: Seq<char>)
    requires
        digits.len() > 0,
        forall|i: int| 0 <= i < digits.len() ==> '0' <= #[trigger] digits[i] && digits[i] <= '9',
        digits.len() > 1 ==> digits[0] != '0',
    ensures
        decimal(number(digits)) == digits,
    decreases digits.len(),
{
    let c = digits.last();
    assert('0' <= digits[digits.len() - 1]);
    if digits.len() == 1 {
        law_number_of_a_digit(c);
        assert(digits =~= seq![c]);
        assert(digit(number(digits)) == c);
    } else {
        let fewer = digits.drop_last();
        law_decimal_is_the_only_notation(fewer);
        lemma_number_is_positive(fewer);
        let n = number(digits);
        assert(n == 10 * number(fewer) + (c as int - 48));
        assert(n / 10 == number(fewer));
        assert(digit(n % 10) == c);
        assert(decimal(n) =~= digits);
    }
}

/// A row of digits with no zero in front stands for more than zero.
proof fn lemma_number_is_positive(digits: Seq<char>)
    requires
        digits.len() > 0,
        forall|i: int| 0 <= i < digits.len() ==> '0' <= #[trigger] digits[i] && digits[i] <= '9',
        digits[0] != '0',
    ensures
        number(digits) > 0,
    decreases digits.len(),
{
    assert('0' <= digits[digits.len() - 1]);
    if digits.len() > 1 {
        lemma_number_is_positive(digits.drop_last());
    }
}

/// Zeros alone stand for zero.
proof fn lemma_zeros(zeros: Seq<char>)
    requires
        forall|i: int| 0 <= i < zeros.len() ==> #[trigger] zeros[i] == '0',
    ensures
        number(zeros) == 0,
    decreases zeros.len(),
{
    if zeros.len() > 0 {
        assert(zeros[zeros.len() - 1] == '0');
        lemma_zeros(zeros.drop_last());
    }
}

/// The zeros in front of a row of digits, behind which the decimal notation of its number is left.
proof fn lemma_zeros_in_front(digits: Seq<char>) -> (zeros: Seq<char>)
    requires
        digits.len() > 0,
        forall|i: int| 0 <= i < digits.len() ==> '0' <= #[trigger] digits[i] && digits[i] <= '9',
    ensures
        forall|i: int| 0 <= i < zeros.len() ==> #[trigger] zeros[i] == '0',
        digits == zeros + decimal(number(digits)),
    decreases digits.len(),
{
    if digits.len() > 1 && digits[0] == '0' {
        let fewer = digits.skip(1);
        let zeros = lemma_zeros_in_front(fewer);
        law_number_goes_by_places(seq!['0'], fewer);
        law_number_of_a_digit('0');
        assert(digits =~= seq!['0'] + fewer);
        assert(0 * pow(10, fewer.len()) == 0);
        assert(digits =~= seq!['0'] + zeros + decimal(number(digits)));
        seq!['0'] + zeros
    } else {
        law_decimal_is_the_only_notation(digits);
        assert(digits =~= Seq::<char>::empty() + decimal(number(digits)));
        Seq::empty()
    }
}

/// A text is read as the number `n` exactly where it is the decimal notation of `n`, with any
/// number of zeros in front, behind a plus sign or none.
pub proof fn law_what_is_read_as_a_number(text: Seq<char>, n: u64)
    ensures
        parsed(text) == Some(n) <==> exists|sign: Seq<char>, zeros: Seq<char>|
            (sign == Seq::<char>::empty() || sign == seq!['+']) && (forall|i: int|
                0 <= i < zeros.len() ==> #[trigger] zeros[i] == '0') && text
                == #[trigger] (sign + zeros) + decimal(n as nat),
{
    if parsed(text) == Some(n) {
        let digits = unsigned_digits(text);
        assert forall|i: int| 0 <= i < digits.len() implies '0' <= #[trigger] digits[i]
            && digits[i] <= '9' by {
            assert(is_digit(digits[i]));
        }
        let zeros = lemma_zeros_in_front(digits);
        let sign = if text.len() > 0 && text[0] == '+' {
            seq!['+']
        } else {
            Seq::empty()
        };
        assert(number(digits) == n as nat);
        assert(text =~= sign + digits);
        assert(sign + (zeros + decimal(n as nat)) =~= (sign + zeros) + decimal(n as nat));
        assert(text == (sign + zeros) + decimal(n as nat));
    }
    assert forall|sign: Seq<char>, zeros: Seq<char>|
        (sign == Seq::<char>::empty() || sign == seq!['+']) && (forall|i: int|
            0 <= i < zeros.len() ==> #[trigger] zeros[i] == '0') && text == #[trigger] (sign
            + zeros) + decimal(n as nat) implies parsed(text) == Some(n) by {
        lemma_notation_is_read(sign, zeros, n);
    }
}

proof fn lemma_notation_is_read(sign: Seq<char>, zeros: Seq<char>, n: u64)
    requires
        sign == Seq::<char>::empty() || sign == seq!['+'],
        forall|i: int| 0 <= i < zeros.len() ==> #[trigger] zeros[i] == '0',
    ensures
        parsed((sign + zeros) + decimal(n as nat)) == Some(n),
{
    let text = (sign + zeros) + decimal(n as nat);
    let digits = zeros + decimal(n as nat);
    lemma_decimal(n as nat);
    lemma_zeros(zeros);
    law_number_goes_by_places(zeros, decimal(n as nat));
    assert(0 * pow(10, decimal(n as nat).len()) == 0);
    assert forall|i: int| 0 <= i < digits.len() implies is_digit(#[trigger] digits[i]) by {
        if i >= zeros.len() {
            assert(is_digit(decimal(n as nat)[i - zeros.len()]));
        }
    }
    assert(is_digit(digits[0]));
    assert(unsigned_digits(text) =~= digits);
}

/// Trimmed, a text is what is left of it without white space at either end.
pub proof fn law_trimmed_is_the_text_within(text: Seq<char>) -> (around: (Seq<char>, Seq<char>))
    ensures
        text == around.0 + trimmed(text) + around.1,
        forall|i: int| 0 <= i < around.0.len() ==> is_white_space(#[trigger] around.0[i]),
        forall|i: int| 0 <= i < around.1.len() ==> is_white_space(#[trigger] around.1[i]),
        trimmed(text).len() > 0 ==> !is_white_space(trimmed(text).first()),
        trimmed(text).len() > 0 ==> !is_white_space(trimmed(text).last()),
{
    let before = lemma_trimmed_start(text);
    let after = lemma_trimmed_end(trimmed_start(text));
    assert(text =~= before + trimmed(text) + after);
    if trimmed(text).len() > 0 {
        assert(trimmed(text).first() == trimmed_start(text).first());
    }
    (before, after)
}

proof fn lemma_trimmed_start(text: Seq<char>) -> (before: Seq<char>)
    ensures
        text == before + trimmed_start(text),
        forall|i: int| 0 <= i < before.len() ==> is_white_space(#[trigger] before[i]),
        trimmed_start(text).len() > 0 ==> !is_white_space(trimmed_start(text).first()),
    decreases text.len(),
{
    if text.len() > 0 && is_white_space(text.first()) {
        let before = lemma_trimmed_start(text.drop_first());
        let rest = trimmed_start(text.drop_first());
        assert(text =~= seq![text.first()] + text.drop_first());
        assert(seq![text.first()] + (before + rest) =~= (seq![text.first()] + before) + rest);
        seq![text.first()] + before
    } else {
        assert(text =~= Seq::<char>::empty() + text);
        Seq::empty()
    }
}

proof fn lemma_trimmed_end(text: Seq<char>) -> (after: Seq<char>)
    ensures
        text == trimmed_end(text) + after,
        forall|i: int| 0 <= i < after.len() ==> is_white_space(#[trigger] after[i]),
        trimmed_end(text).len() > 0 ==> !is_white_space(trimmed_end(text).last()),
    decreases text.len(),
{
    if text.len() > 0 && is_white_space(text.last()) {
        let after = lemma_trimmed_end(text.drop_last());
        let rest = trimmed_end(text.drop_last());
        assert(text =~= text.drop_last() + seq![text.last()]);
        assert((rest + after) + seq![text.last()] =~= rest + (after + seq![text.last()]));
        after + seq![text.last()]
    } else {
        assert(text =~= text + Seq::<char>::empty());
        Seq::empty()
    }
}

/// A number is read out of its decimal notation, whatever zeros or plus sign stand in front of it
/// and whatever white space around.
pub proof fn law_number_is_read_in_white_space(
    before: Seq<char>,
    sign: Seq<char>,
    zeros: Seq<char>,
    n: u64,
    after: Seq<char>,
)
    requires
        forall|i: int| 0 <= i < before.len() ==> is_white_space(#[trigger] before[i]),
        forall|i: int| 0 <= i < after.len() ==> is_white_space(#[trigger] after[i]),
        sign == Seq::<char>::empty() || sign == seq!['+'],
        forall|i: int| 0 <= i < zeros.len() ==> #[trigger] zeros[i] == '0',
    ensures
        parsed(trimmed(before + ((sign + zeros) + decimal(n as nat)) + after)) == Some(n),
{
    let text = (sign + zeros) + decimal(n as nat);
    lemma_notation_is_read(sign, zeros, n);
    lemma_decimal(n as nat);
    law_white_space_around_is_ignored(before, text, after);
    assert(is_digit(decimal(n as nat)[0]));
    assert(is_digit(decimal(n as nat)[decimal(n as nat).len() - 1]));
    assert(text.last() == decimal(n as nat).last());
    assert(text.first() == '+' || is_digit(text.first()));
    assert(trimmed(text) == text);
}

/// The notation of an integer below zero is a minus sign and that of the integer without it; any
/// other has the notation of a number.
pub proof fn law_sign_is_in_front(n: nat)
    ensures
        signed_decimal(n as int) == decimal(n),
        n > 0 ==> signed_decimal(-n) == seq!['-'] + decimal(n),
{
}

} // verus!
