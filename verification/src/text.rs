//! Text: tokens between white space, and decimal numbers.

use vstd::arithmetic::power::*;
use vstd::prelude::*;
use vstd::utf8::*;

verus! {

/// `String::push` appends the character to the string.
pub assume_specification[ String::push ](string: &mut String, ch: char)
    ensures
        final(string)@ == old(string)@.push(ch),
;

/// Whether `ch` has the Unicode property White_Space.
pub open spec fn is_white_space(ch: char) -> bool {
    ||| '\u{9}' <= ch <= '\u{d}'
    ||| ch == ' '
    ||| ch == '\u{85}'
    ||| ch == '\u{a0}'
    ||| ch == '\u{1680}'
    ||| '\u{2000}' <= ch <= '\u{200a}'
    ||| ch == '\u{2028}'
    ||| ch == '\u{2029}'
    ||| ch == '\u{202f}'
    ||| ch == '\u{205f}'
    ||| ch == '\u{3000}'
}

/// Whether `ch` has the Unicode property White_Space.
pub fn white_space(ch: char) -> (white: bool)
    ensures
        white == is_white_space(ch),
{
    matches!(
        ch,
        '\u{9}'..='\u{d}'
        | ' '
        | '\u{85}'
        | '\u{a0}'
        | '\u{1680}'
        | '\u{2000}'..='\u{200a}'
        | '\u{2028}'
        | '\u{2029}'
        | '\u{202f}'
        | '\u{205f}'
        | '\u{3000}'
    )
}

/// The runs of characters that are not white space. Such a character belongs to the last token
/// where it follows another one, and begins a token where it does not.
pub open spec fn tokens(text: Seq<char>) -> Seq<Seq<char>>
    decreases text.len(),
{
    if text.len() == 0 {
        seq![]
    } else {
        let before = text.drop_last();
        let ch = text.last();
        if is_white_space(ch) {
            tokens(before)
        } else if before.len() > 0 && !is_white_space(before.last()) {
            tokens(before).drop_last().push(tokens(before).last().push(ch))
        } else {
            tokens(before).push(seq![ch])
        }
    }
}

/// No token is empty or holds white space, and together the tokens are what is left of the text
/// without its white space.
pub proof fn lemma_tokens(text: Seq<char>)
    ensures
        forall|i: int| 0 <= i < tokens(text).len() ==> (#[trigger] tokens(text)[i]).len() > 0,
        forall|i: int, k: int|
            0 <= i < tokens(text).len() && 0 <= k < tokens(text)[i].len() ==> !is_white_space(
                #[trigger] tokens(text)[i][k],
            ),
        tokens(text).flatten() == text.filter(|ch: char| !is_white_space(ch)),
        text.len() > 0 && !is_white_space(text.last()) ==> tokens(text).len() > 0,
    decreases text.len(),
{
    broadcast use vstd::seq_lib::group_seq_properties;

    reveal_with_fuel(Seq::filter, 1);
    if text.len() > 0 {
        let before = text.drop_last();
        let ch = text.last();
        lemma_tokens(before);
        if !is_white_space(ch) {
            if before.len() > 0 && !is_white_space(before.last()) {
                let kept = tokens(before).drop_last();
                let last = tokens(before).last();
                assert(tokens(before) =~= kept.push(last));
                kept.lemma_flatten_push(last);
                kept.lemma_flatten_push(last.push(ch));
                assert(kept.flatten() + last.push(ch) =~= (kept.flatten() + last).push(ch));
            } else {
                tokens(before).lemma_flatten_push(seq![ch]);
                assert(tokens(before).flatten() + seq![ch] =~= tokens(before).flatten().push(ch));
            }
        }
    }
}

/// There are no more tokens than characters.
pub proof fn lemma_tokens_at_most_chars(text: Seq<char>)
    ensures
        tokens(text).len() <= text.len(),
    decreases text.len(),
{
    if text.len() > 0 {
        lemma_tokens_at_most_chars(text.drop_last());
        lemma_tokens(text.drop_last());
    }
}

/// White space parts the tokens before it from those behind it.
pub proof fn lemma_tokens_of_longer_text(text: Seq<char>, space: char, more: Seq<char>)
    requires
        is_white_space(space),
    ensures
        tokens(text.push(space) + more) == tokens(text) + tokens(more),
    decreases more.len(),
{
    let head = text.push(space);
    let longer = head + more;
    if more.len() == 0 {
        assert(longer =~= head);
        assert(head.drop_last() =~= text);
        assert(tokens(text) + tokens(more) =~= tokens(text));
    } else {
        let before = more.drop_last();
        let ch = more.last();
        lemma_tokens_of_longer_text(text, space, before);
        assert(longer.drop_last() =~= head + before);
        assert(longer.last() == ch);
        if !is_white_space(ch) {
            if before.len() > 0 && !is_white_space(before.last()) {
                lemma_tokens(before);
                assert((head + before).last() == before.last());
                let all = tokens(text) + tokens(before);
                assert(all.drop_last() =~= tokens(text) + tokens(before).drop_last());
                assert(all.last() == tokens(before).last());
                assert(tokens(longer) =~= tokens(text) + tokens(more));
            } else {
                assert((head + before).last() == if before.len() == 0 {
                    space
                } else {
                    before.last()
                });
                assert(tokens(longer) =~= tokens(text) + tokens(more));
            }
        }
    }
}

/// The texts of some strings.
pub open spec fn texts(strings: Seq<String>) -> Seq<Seq<char>> {
    strings.map_values(|string: String| string@)
}

/// Splits `text` at white space.
pub fn split_tokens(text: &str) -> (split: Vec<String>)
    ensures
        texts(split@) == tokens(text@),
{
    let mut split: Vec<String> = Vec::new();
    let mut current: String = String::new();
    let mut in_token: bool = false;
    for ch in chars: text.chars()
        invariant
            chars.seq() == text@,
            in_token == (chars.index() > 0 && !is_white_space(text@[chars.index() - 1])),
            in_token ==> texts(split@).push(current@) == tokens(text@.take(chars.index())),
            !in_token ==> {
                &&& current@ == Seq::<char>::empty()
                &&& texts(split@) == tokens(text@.take(chars.index()))
            },
    {
        proof {
            let before = text@.take(chars.index());
            let after = text@.take(chars.index() + 1);
            assert(after.drop_last() =~= before);
            assert(after.last() == ch);
        }
        if white_space(ch) {
            if in_token {
                proof {
                    assert(texts(split@.push(current)) =~= texts(split@).push(current@));
                }
                split.push(current);
                current = String::new();
            }
            in_token = false;
        } else {
            proof {
                let grown = texts(split@).push(current@);
                assert(grown.drop_last() =~= texts(split@));
                assert(seq![ch] =~= Seq::<char>::empty().push(ch));
            }
            current.push(ch);
            in_token = true;
        }
    }
    assert(text@.take(text@.len() as int) =~= text@);
    if in_token {
        assert(texts(split@.push(current)) =~= texts(split@).push(current@));
        split.push(current);
    }
    split
}

/// The character for a digit below ten.
pub open spec fn digit_char(digit: nat) -> char {
    ('0' as nat + digit) as char
}

/// `number` in decimal, without leading zeros.
pub open spec fn decimal(number: nat) -> Seq<char>
    decreases number,
{
    if number < 10 {
        seq![digit_char(number)]
    } else {
        decimal(number / 10).push(digit_char(number % 10))
    }
}

/// Appends `number` in decimal to `out`.
pub fn push_decimal(out: &mut String, number: u64)
    ensures
        final(out)@ == old(out)@ + decimal(number as nat),
    decreases number,
{
    if number >= 10 {
        push_decimal(out, number / 10);
    }
    let digit: u8 = 48 + (number % 10) as u8;
    out.push(digit as char);
    assert(out@ =~= old(out)@ + decimal(number as nat));
}

/// Why a text is not a number.
#[derive(Clone, Copy, Debug, PartialEq, Eq, Structural)]
pub enum NumberError {
    Empty,
    InvalidDigit,
    TooLarge,
}

impl NumberError {
    /// The error in words.
    pub open spec fn text(self) -> Seq<char> {
        match self {
            NumberError::Empty => "cannot parse integer from empty string"@,
            NumberError::InvalidDigit => "invalid digit found in string"@,
            NumberError::TooLarge => "number too large to fit in target type"@,
        }
    }

    /// The error in words.
    pub fn message(&self) -> (message: &'static str)
        ensures
            message@ == self.text(),
    {
        match self {
            NumberError::Empty => "cannot parse integer from empty string",
            NumberError::InvalidDigit => "invalid digit found in string",
            NumberError::TooLarge => "number too large to fit in target type",
        }
    }
}

pub open spec fn is_digit(ch: char) -> bool {
    '0' <= ch <= '9'
}

/// The number that a sequence of digits stands for.
pub open spec fn digits_value(digits: Seq<char>) -> nat
    decreases digits.len(),
{
    if digits.len() == 0 {
        0
    } else {
        digits_value(digits.drop_last()) * 10 + (digits.last() as nat - '0' as nat) as nat
    }
}

/// What reading `digits` from the left comes to: the first character that is no digit, or with
/// which the number outgrows `max`, ends it.
pub open spec fn read_digits(digits: Seq<char>, max: nat) -> Result<nat, NumberError>
    decreases digits.len(),
{
    if digits.len() == 0 {
        Ok(0)
    } else {
        match read_digits(digits.drop_last(), max) {
            Err(error) => Err(error),
            Ok(value) => {
                let ch = digits.last();
                if !is_digit(ch) {
                    Err(NumberError::InvalidDigit)
                } else if value * 10 + (ch as nat - '0' as nat) > max {
                    Err(NumberError::TooLarge)
                } else {
                    Ok((value * 10 + (ch as nat - '0' as nat)) as nat)
                }
            },
        }
    }
}

/// What reading `text` as a number of at most `max` comes to. A plus sign may stand before the
/// digits, of which there has to be one at least.
pub open spec fn read_number(text: Seq<char>, max: nat) -> Result<nat, NumberError> {
    if text.len() == 0 {
        Err(NumberError::Empty)
    } else if text[0] != '+' {
        read_digits(text, max)
    } else if text.len() == 1 {
        Err(NumberError::InvalidDigit)
    } else {
        read_digits(text.skip(1), max)
    }
}

/// The characters of `text`.
fn chars_of(text: &str) -> (all: Vec<char>)
    ensures
        all@ == text@,
{
    let mut all: Vec<char> = Vec::new();
    for ch in chars: text.chars()
        invariant
            chars.seq() == text@,
            all@ == text@.take(chars.index()),
    {
        assert(text@.take(chars.index() + 1) =~= text@.take(chars.index()).push(ch));
        all.push(ch);
    }
    assert(text@.take(text@.len() as int) =~= text@);
    all
}

/// Whether `text` begins with two dashes.
pub open spec fn is_flag(text: Seq<char>) -> bool {
    text.len() >= 2 && text[0] == '-' && text[1] == '-'
}

/// Whether `text` begins with two dashes.
pub fn begins_as_flag(text: &str) -> (flag: bool)
    ensures
        flag == is_flag(text@),
{
    let all = chars_of(text);
    all.len() >= 2 && all[0] == '-' && all[1] == '-'
}

/// An error in the first `count` digits is the error of all of them.
proof fn lemma_first_error(digits: Seq<char>, count: int, max: nat)
    requires
        0 <= count <= digits.len(),
        read_digits(digits.take(count), max) is Err,
    ensures
        read_digits(digits, max) == read_digits(digits.take(count), max),
    decreases digits.len(),
{
    if count == digits.len() {
        assert(digits.take(count) =~= digits);
    } else {
        assert(digits.drop_last().take(count) =~= digits.take(count));
        lemma_first_error(digits.drop_last(), count, max);
    }
}

/// Reads `text` as a number of at most `max`.
pub fn parse_number(text: &str, max: u64) -> (number: Result<u64, NumberError>)
    ensures
        match number {
            Ok(value) => read_number(text@, max as nat) == Ok::<nat, NumberError>(value as nat),
            Err(error) => read_number(text@, max as nat) == Err::<nat, NumberError>(error),
        },
{
    let all = chars_of(text);
    if all.len() == 0 {
        return Err(NumberError::Empty);
    }
    let start: usize = if all[0] == '+' { 1 } else { 0 };
    if start == all.len() {
        return Err(NumberError::InvalidDigit);
    }
    let ghost digits = text@.skip(start as int);
    assert(text@.skip(0) =~= text@);
    let mut value: u64 = 0;
    let mut i: usize = start;
    while i < all.len()
        invariant
            all@ == text@,
            start <= i <= all@.len(),
            digits == text@.skip(start as int),
            read_number(text@, max as nat) == read_digits(digits, max as nat),
            read_digits(digits.take(i - start), max as nat) == Ok::<nat, NumberError>(
                value as nat,
            ),
        decreases all@.len() - i,
    {
        let ch: char = all[i];
        proof {
            let next = digits.take(i + 1 - start);
            assert(next.drop_last() =~= digits.take(i - start));
            assert(next.last() == ch);
        }
        if !(ch >= '0' && ch <= '9') {
            proof {
                lemma_first_error(digits, i + 1 - start, max as nat);
            }
            return Err(NumberError::InvalidDigit);
        }
        let grown: u128 = value as u128 * 10 + (ch as u32 - 48) as u128;
        if grown > max as u128 {
            proof {
                lemma_first_error(digits, i + 1 - start, max as nat);
            }
            return Err(NumberError::TooLarge);
        }
        value = grown as u64;
        i = i + 1;
    }
    assert(digits.take(all@.len() - start) =~= digits);
    Ok(value)
}

/// Reading digits succeeds just where they are digits and the number that they stand for is not
/// too large, and gives that number.
pub proof fn lemma_read_digits(digits: Seq<char>, max: nat)
    ensures
        read_digits(digits, max) is Ok <==> (forall|i: int|
            0 <= i < digits.len() ==> is_digit(#[trigger] digits[i])) && digits_value(digits)
            <= max,
        read_digits(digits, max) matches Ok(value) ==> value == digits_value(digits),
    decreases digits.len(),
{
    if digits.len() > 0 {
        let before = digits.drop_last();
        lemma_read_digits(before, max);
        assert(forall|i: int| 0 <= i < before.len() ==> before[i] == digits[i]);
        assert(digits_value(before) <= digits_value(digits));
    }
}

/// What is read as a number is at most `max`.
pub proof fn lemma_number_bound(text: Seq<char>, max: nat)
    ensures
        read_number(text, max) matches Ok(value) ==> value <= max,
{
    lemma_read_digits(text, max);
    lemma_read_digits(text.skip(1), max);
}

/// A number of at most `max` is read back from its decimal form.
pub proof fn lemma_decimal_reads_back(number: nat, max: nat)
    requires
        number <= max,
    ensures
        read_number(decimal(number), max) == Ok::<nat, NumberError>(number),
{
    lemma_decimal_digits(number);
    lemma_read_digits(decimal(number), max);
    assert(is_digit(decimal(number)[0]));
}

/// The decimal form of a number is made of digits that stand for it.
pub(crate) proof fn lemma_decimal_digits(number: nat)
    ensures
        decimal(number).len() > 0,
        forall|i: int| 0 <= i < decimal(number).len() ==> is_digit(#[trigger] decimal(number)[i]),
        digits_value(decimal(number)) == number,
    decreases number,
{
    if number >= 10 {
        lemma_decimal_digits(number / 10);
        assert(decimal(number).drop_last() =~= decimal(number / 10));
    } else {
        assert(decimal(number).drop_last() =~= Seq::<char>::empty());
        reveal_with_fuel(digits_value, 2);
    }
}

/// Whether two texts are the same.
pub fn same_text(a: &str, b: &str) -> (same: bool)
    ensures
        same == (a@ == b@),
{
    let a_bytes = a.as_bytes();
    let b_bytes = b.as_bytes();
    proof {
        encode_utf8_decode_utf8(a@);
        encode_utf8_decode_utf8(b@);
    }
    if a_bytes.len() != b_bytes.len() {
        return false;
    }
    let mut i: usize = 0;
    while i < a_bytes.len()
        invariant
            i <= a_bytes@.len(),
            a_bytes@.len() == b_bytes@.len(),
            a_bytes@ == encode_utf8(a@),
            b_bytes@ == encode_utf8(b@),
            forall|k: int| 0 <= k < i ==> a_bytes@[k] == b_bytes@[k],
        decreases a_bytes@.len() - i,
    {
        if a_bytes[i] != b_bytes[i] {
            return false;
        }
        i = i + 1;
    }
    assert(a_bytes@ =~= b_bytes@);
    true
}

/// What follows the last `separator` in `text`, if there is one.
pub open spec fn after_last(text: Seq<char>, separator: char) -> Option<Seq<char>>
    decreases text.len(),
{
    if text.len() == 0 {
        None
    } else if text.last() == separator {
        Some(seq![])
    } else {
        match after_last(text.drop_last(), separator) {
            None => None,
            Some(tail) => Some(tail.push(text.last())),
        }
    }
}

/// What follows the last `separator` in `text`, if there is one.
pub fn tail_after_last(text: &str, separator: char) -> (tail: Option<String>)
    ensures
        match tail {
            Some(tail) => after_last(text@, separator) == Some(tail@),
            None => after_last(text@, separator) is None,
        },
{
    let mut found: bool = false;
    let mut tail: String = String::new();
    for ch in chars: text.chars()
        invariant
            chars.seq() == text@,
            found ==> after_last(text@.take(chars.index()), separator) == Some(tail@),
            !found ==> after_last(text@.take(chars.index()), separator) is None,
    {
        proof {
            let next = text@.take(chars.index() + 1);
            assert(next.drop_last() =~= text@.take(chars.index()));
            assert(next.last() == ch);
        }
        if ch == separator {
            found = true;
            tail = String::new();
        } else if found {
            tail.push(ch);
        }
    }
    assert(text@.take(text@.len() as int) =~= text@);
    if found {
        Some(tail)
    } else {
        None
    }
}

/// After a separator and a tail without one, the tail is what follows the last separator.
pub proof fn lemma_after_last(head: Seq<char>, separator: char, tail: Seq<char>)
    requires
        !tail.contains(separator),
    ensures
        after_last(head.push(separator) + tail, separator) == Some(tail),
    decreases tail.len(),
{
    let text = head.push(separator) + tail;
    if tail.len() == 0 {
        assert(text =~= head.push(separator));
        assert(tail =~= Seq::<char>::empty());
    } else {
        let before = tail.drop_last();
        assert(!before.contains(separator)) by {
            if before.contains(separator) {
                let i = choose|i: int| 0 <= i < before.len() && before[i] == separator;
                assert(tail[i] == separator);
            }
        }
        lemma_after_last(head, separator, before);
        assert(text.drop_last() =~= head.push(separator) + before);
        assert(text.last() == tail.last());
        assert(tail.last() != separator) by {
            assert(tail[tail.len() - 1] == tail.last());
        }
        assert(before.push(tail.last()) =~= tail);
    }
}

/// Where there is no separator, nothing follows the last one.
pub proof fn lemma_no_separator(text: Seq<char>, separator: char)
    requires
        !text.contains(separator),
    ensures
        after_last(text, separator) is None,
    decreases text.len(),
{
    if text.len() > 0 {
        let before = text.drop_last();
        assert(text[text.len() - 1] != separator);
        assert(!before.contains(separator)) by {
            if before.contains(separator) {
                let i = choose|i: int| 0 <= i < before.len() && before[i] == separator;
                assert(text[i] == separator);
            }
        }
        lemma_no_separator(before, separator);
    }
}

/// The number that digits stand for goes by their places: digits before others count ten times as
/// much for each of these.
pub proof fn lemma_digits_value(a: Seq<char>, b: Seq<char>, digit: char)
    requires
        '0' <= digit <= '9',
    ensures
        digits_value(Seq::<char>::empty()) == 0,
        digits_value(seq![digit]) == digit as nat - 48,
        digits_value(a + b) == digits_value(a) * pow(10, b.len()) + digits_value(b),
    decreases b.len(),
{
    reveal_with_fuel(digits_value, 2);
    assert(seq![digit].drop_last() =~= Seq::<char>::empty());
    lemma_pow0(10);
    if b.len() == 0 {
        assert(a + b =~= a);
    } else {
        let before = b.drop_last();
        lemma_digits_value(a, before, digit);
        lemma_pow_positive(10, before.len());
        assert((a + b).drop_last() =~= a + before);
        reveal(pow);
        assert(pow(10, b.len()) == 10 * pow(10, before.len()));
        let v = digits_value(a) as int;
        let p = pow(10, before.len());
        assert(v * (10 * p) == (v * p) * 10) by (nonlinear_arith);
    }
}

/// A text without white space is one token, unless it is empty, and an empty text has none.
pub proof fn lemma_one_token(text: Seq<char>)
    requires
        forall|i: int| 0 <= i < text.len() ==> !is_white_space(#[trigger] text[i]),
    ensures
        text.len() == 0 ==> tokens(text).len() == 0,
        text.len() > 0 ==> tokens(text) == seq![text],
    decreases text.len(),
{
    if text.len() > 0 {
        let before = text.drop_last();
        assert forall|i: int| 0 <= i < before.len() implies !is_white_space(
            #[trigger] before[i],
        ) by {
            assert(before[i] == text[i]);
        }
        lemma_one_token(before);
        assert(!is_white_space(text[text.len() - 1]));
        if before.len() > 0 {
            assert(!is_white_space(before[before.len() - 1]));
            assert(before.push(text.last()) =~= text);
            assert(seq![before].drop_last() =~= Seq::<Seq<char>>::empty());
            assert(tokens(text) =~= seq![text]);
        } else {
            assert(seq![text.last()] =~= text);
            assert(tokens(text) =~= seq![text]);
        }
    }
}

/// Digits before other digits count for something, unless the first of them is a zero.
proof fn lemma_leading_digit(digits: Seq<char>)
    requires
        digits.len() > 0,
        digits[0] != '0',
        forall|i: int| 0 <= i < digits.len() ==> '0' <= #[trigger] digits[i] <= '9',
    ensures
        digits_value(digits) > 0,
    decreases digits.len(),
{
    if digits.len() == 1 {
        assert(digits.drop_last() =~= Seq::<char>::empty());
    } else {
        assert(digits.drop_last()[0] == digits[0]);
        lemma_leading_digit(digits.drop_last());
    }
}

/// A number has one decimal form only: the digits without leading zeros that stand for it.
pub proof fn lemma_decimal_is_unique(digits: Seq<char>)
    requires
        digits.len() > 0,
        digits.len() > 1 ==> digits[0] != '0',
        forall|i: int| 0 <= i < digits.len() ==> '0' <= #[trigger] digits[i] <= '9',
    ensures
        decimal(digits_value(digits)) == digits,
    decreases digits.len(),
{
    let before = digits.drop_last();
    let last = digits[digits.len() - 1];
    let digit = (last as nat - 48) as nat;
    let value = digits_value(before);
    assert(value * 10 + digit == digits_value(digits));
    assert(digit_char(digit) == last);
    if digits.len() == 1 {
        assert(before =~= Seq::<char>::empty());
        assert(decimal(digits_value(digits)) =~= digits);
    } else {
        assert(before[0] == digits[0]);
        lemma_leading_digit(before);
        lemma_decimal_is_unique(before);
        assert((value * 10 + digit) / 10 == value && (value * 10 + digit) % 10 == digit)
            by (nonlinear_arith)
            requires
                digit < 10,
        ;
        assert(before.push(last) =~= digits);
    }
}

/// Reading digits stops at the first character that is no digit, or with which the number gets too
/// large.
pub proof fn lemma_first_bad_character(digits: Seq<char>, k: int, max: nat)
    requires
        0 <= k < digits.len(),
        forall|i: int| 0 <= i < k ==> '0' <= #[trigger] digits[i] <= '9',
        digits_value(digits.take(k)) <= max,
    ensures
        !('0' <= digits[k] <= '9') ==> read_digits(digits, max) == Err::<nat, NumberError>(
            NumberError::InvalidDigit,
        ),
        '0' <= digits[k] <= '9' && digits_value(digits.take(k + 1)) > max ==> read_digits(
            digits,
            max,
        ) == Err::<nat, NumberError>(NumberError::TooLarge),
{
    let good = digits.take(k);
    let next = digits.take(k + 1);
    lemma_read_digits(good, max);
    assert(next.drop_last() =~= good);
    assert(next.last() == digits[k]);
    if !('0' <= digits[k] <= '9') || digits_value(next) > max {
        lemma_first_error(digits, k + 1, max);
    }
}

/// What is read as a number: digits that stand for no more than `max`, with a plus sign before them
/// or without. An empty text and a sign alone are none.
pub proof fn lemma_read_number(digits: Seq<char>, max: nat)
    requires
        digits.len() > 0,
        forall|i: int| 0 <= i < digits.len() ==> '0' <= #[trigger] digits[i] <= '9',
    ensures
        digits_value(digits) <= max ==> {
            &&& read_number(digits, max) == Ok::<nat, NumberError>(digits_value(digits))
            &&& read_number(seq!['+'] + digits, max) == Ok::<nat, NumberError>(
                digits_value(digits),
            )
        },
        digits_value(digits) > max ==> {
            &&& read_number(digits, max) == Err::<nat, NumberError>(NumberError::TooLarge)
            &&& read_number(seq!['+'] + digits, max) == Err::<nat, NumberError>(
                NumberError::TooLarge,
            )
        },
        read_number(Seq::<char>::empty(), max) == Err::<nat, NumberError>(NumberError::Empty),
        read_number(seq!['+'], max) == Err::<nat, NumberError>(NumberError::InvalidDigit),
{
    let signed = seq!['+'] + digits;
    assert(signed.skip(1) =~= digits);
    assert('0' <= digits[0] <= '9');
    lemma_read_digits(digits, max);
    if digits_value(digits) > max {
        lemma_too_large(digits, max);
    }
}

/// Digits that stand for more than `max` are too large.
proof fn lemma_too_large(digits: Seq<char>, max: nat)
    requires
        forall|i: int| 0 <= i < digits.len() ==> '0' <= #[trigger] digits[i] <= '9',
        digits_value(digits) > max,
    ensures
        read_digits(digits, max) == Err::<nat, NumberError>(NumberError::TooLarge),
    decreases digits.len(),
{
    let before = digits.drop_last();
    assert forall|i: int| 0 <= i < before.len() implies '0' <= #[trigger] before[i] <= '9' by {
        assert(before[i] == digits[i]);
    }
    lemma_read_digits(before, max);
    assert('0' <= digits[digits.len() - 1] <= '9');
    if digits_value(before) > max {
        lemma_too_large(before, max);
    }
}

/// The texts of some strings are those of each of them, in the same places.
pub proof fn lemma_texts(strings: Seq<String>)
    ensures
        texts(strings).len() == strings.len(),
        forall|i: int|
            0 <= i < strings.len() ==> #[trigger] texts(strings)[i] == strings[i]@,
{
}

} // verus!
