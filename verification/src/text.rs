//! Text: what the messages and the DN template are written with.

use vstd::arithmetic::power::pow;
use vstd::prelude::*;

verus! {

/// `String::push`: the character is appended to the end of the string.
pub assume_specification[ String::push ](string: &mut String, ch: char)
    ensures
        final(string)@ == old(string)@.push(ch),
;

/// The decimal digit for `n`.
pub open spec fn digit_of(n: nat) -> char
    recommends
        n < 10,
{
    (0x30 + n) as char
}

/// `n` in decimal, with no leading zero.
pub open spec fn digits_of(n: nat) -> Seq<char>
    decreases n,
{
    if n < 10 {
        seq![digit_of(n)]
    } else {
        digits_of(n / 10).push(digit_of(n % 10))
    }
}

/// `value` in decimal, with a minus sign before a negative one.
pub open spec fn decimal_of(value: int) -> Seq<char> {
    if value < 0 {
        seq!['-'] + digits_of((-value) as nat)
    } else {
        digits_of(value as nat)
    }
}

fn push_digits(out: &mut String, n: u64)
    ensures
        final(out)@ == old(out)@ + digits_of(n as nat),
    decreases n,
{
    if n >= 10 {
        push_digits(out, n / 10);
    }
    out.push((0x30u8 + (n % 10) as u8) as char);
}

/// `value` in decimal.
pub fn decimal(value: i64) -> (out: String)
    ensures
        out@ == decimal_of(value as int),
{
    let mut out = String::new();
    if value < 0 {
        out.push('-');
        push_digits(&mut out, (-(value + 1)) as u64 + 1);
    } else {
        push_digits(&mut out, value as u64);
    }
    out
}

/// The characters of `text`, one after another.
pub fn characters(text: &str) -> (out: Vec<char>)
    ensures
        out@ == text@,
{
    let mut out: Vec<char> = Vec::new();
    for character in iter: text.chars()
        invariant
            out@ == text@.take(iter.index()),
            iter.seq() == text@,
    {
        out.push(character);
    }
    out
}

/// Whether two texts hold the same characters.
pub fn same(left: &str, right: &str) -> (equal: bool)
    ensures
        equal == (left@ == right@),
{
    left.to_owned() == right.to_owned()
}

/// The hexadecimal digit for `n`, in lower case.
pub open spec fn hex_digit_of(n: nat) -> char
    recommends
        n < 16,
{
    if n < 10 {
        digit_of(n)
    } else {
        (0x61 + (n - 10)) as char
    }
}

/// `byte` in hexadecimal: `0x` and two digits.
pub open spec fn hex_of(byte: u8) -> Seq<char> {
    seq!['0', 'x', hex_digit_of((byte / 16) as nat), hex_digit_of((byte % 16) as nat)]
}

fn hex_digit(n: u8) -> (digit: char)
    requires
        n < 16,
    ensures
        digit == hex_digit_of(n as nat),
{
    if n < 10 {
        (0x30u8 + n) as char
    } else {
        (0x61u8 + (n - 10)) as char
    }
}

/// `byte` in hexadecimal.
pub fn hex(byte: u8) -> (out: String)
    ensures
        out@ == hex_of(byte),
{
    let mut out = String::new();
    out.push('0');
    out.push('x');
    out.push(hex_digit(byte / 16));
    out.push(hex_digit(byte % 16));
    out
}

/// Whether `pattern` stands in `text` at `at`.
pub open spec fn stands_at(text: Seq<char>, pattern: Seq<char>, at: int) -> bool {
    0 <= at && at + pattern.len() <= text.len() && text.subrange(at, at + pattern.len()) == pattern
}

/// Whether `pattern` stands anywhere in `text`.
pub open spec fn holds(text: Seq<char>, pattern: Seq<char>) -> bool {
    exists|at: int| stands_at(text, pattern, at)
}

/// `text` with `with` in place of each `pattern` in it, found from left to
/// right; what was put in is not searched again.
pub open spec fn replaced(text: Seq<char>, pattern: Seq<char>, with: Seq<char>) -> Seq<char>
    decreases text.len(),
{
    if text.len() == 0 || pattern.len() == 0 {
        text
    } else if stands_at(text, pattern, 0) {
        with + replaced(text.skip(pattern.len() as int), pattern, with)
    } else {
        seq![text[0]] + replaced(text.skip(1), pattern, with)
    }
}

/// Whether `pattern` stands in `text` at `at`.
fn found_at(text: &Vec<char>, pattern: &Vec<char>, at: usize) -> (found: bool)
    requires
        at <= text@.len(),
    ensures
        found == stands_at(text@, pattern@, at as int),
{
    if pattern.len() > text.len() - at {
        return false;
    }
    let length = text.len();
    let mut i: usize = 0;
    while i < pattern.len()
        invariant
            i <= pattern@.len(),
            at + pattern@.len() <= length,
            length == text@.len(),
            forall|k: int| 0 <= k < i ==> text@[at + k] == pattern@[k],
        decreases pattern@.len() - i,
    {
        if text[at + i] != pattern[i] {
            assert(text@.subrange(at as int, at + pattern@.len())[i as int] != pattern@[i as int]);
            return false;
        }
        i = i + 1;
    }
    assert(text@.subrange(at as int, at + pattern@.len()) =~= pattern@);
    true
}

/// Whether `pattern` stands anywhere in `text`.
pub fn contains(text: &str, pattern: &str) -> (found: bool)
    ensures
        found == holds(text@, pattern@),
{
    let within = characters(text);
    let sought = characters(pattern);
    let mut at: usize = 0;
    while at < within.len()
        invariant
            within@ == text@,
            sought@ == pattern@,
            at <= within@.len(),
            forall|k: int| 0 <= k < at ==> !stands_at(text@, pattern@, k),
        decreases within@.len() - at,
    {
        if found_at(&within, &sought, at) {
            return true;
        }
        at = at + 1;
    }
    found_at(&within, &sought, at)
}

/// `text` with `with` in place of each `pattern` in it.
pub fn replace(text: &str, pattern: &str, with: &str) -> (out: String)
    requires
        pattern@.len() > 0,
    ensures
        out@ == replaced(text@, pattern@, with@),
{
    let text = characters(text);
    let pattern = characters(pattern);
    let mut out = String::new();
    let mut at: usize = 0;
    assert(text@.skip(0) =~= text@);
    assert(out@ + replaced(text@, pattern@, with@) =~= replaced(text@, pattern@, with@));
    while at < text.len()
        invariant
            at <= text@.len(),
            pattern@.len() > 0,
            out@ + replaced(text@.skip(at as int), pattern@, with@) == replaced(
                text@,
                pattern@,
                with@,
            ),
        decreases text@.len() - at,
    {
        let ghost rest = text@.skip(at as int);
        let ghost before = out@;
        if found_at(&text, &pattern, at) {
            assert(rest.subrange(0, pattern@.len() as int) =~= text@.subrange(
                at as int,
                at + pattern@.len(),
            ));
            assert(rest.skip(pattern@.len() as int) =~= text@.skip(at + pattern@.len()));
            out.append(with);
            at = at + pattern.len();
        } else {
            proof {
                if stands_at(rest, pattern@, 0) {
                    assert(rest.subrange(0, pattern@.len() as int) =~= text@.subrange(
                        at as int,
                        at + pattern@.len(),
                    ));
                }
            }
            assert(rest.skip(1) =~= text@.skip(at + 1));
            out.push(text[at]);
            at = at + 1;
        }
        assert(out@ + replaced(text@.skip(at as int), pattern@, with@) =~= before + replaced(
            rest,
            pattern@,
            with@,
        ));
    }
    assert(out@ + replaced(text@.skip(at as int), pattern@, with@) =~= out@);
    out
}

// What holds of replacing.

/// A text without the pattern stays as it is.
pub proof fn lemma_replaced_without_pattern(text: Seq<char>, pattern: Seq<char>, with: Seq<char>)
    requires
        !holds(text, pattern),
    ensures
        replaced(text, pattern, with) == text,
    decreases text.len(),
{
    if text.len() > 0 {
        assert(!stands_at(text, pattern, 0));
        let rest = text.skip(1);
        assert forall|at: int| !stands_at(rest, pattern, at) by {
            if stands_at(rest, pattern, at) {
                lemma_stands_further_on(text, pattern, 1, at);
            }
        }
        lemma_replaced_without_pattern(rest, pattern, with);
        assert(seq![text[0]] + rest =~= text);
    }
}

proof fn lemma_stands_further_on(text: Seq<char>, pattern: Seq<char>, by: int, at: int)
    requires
        0 <= by <= text.len(),
        0 <= at,
    ensures
        stands_at(text.skip(by), pattern, at) == stands_at(text, pattern, by + at),
{
    if at + pattern.len() <= text.skip(by).len() {
        assert(text.skip(by).subrange(at, at + pattern.len()) =~= text.subrange(
            by + at,
            by + at + pattern.len(),
        ));
    }
}

/// A text that holds the pattern has a first place of it, with something before
/// it and something after it.
pub proof fn lemma_first_place(text: Seq<char>, pattern: Seq<char>) -> (sides: (
    Seq<char>,
    Seq<char>,
))
    requires
        holds(text, pattern),
    ensures
        text == sides.0 + pattern + sides.1,
        forall|at: int| 0 <= at < sides.0.len() ==> !stands_at(text, pattern, at),
    decreases text.len(),
{
    if stands_at(text, pattern, 0) {
        let after = text.skip(pattern.len() as int);
        assert(text =~= Seq::empty() + text.subrange(0, pattern.len() as int) + after);
        (Seq::empty(), after)
    } else {
        let found = choose|at: int| stands_at(text, pattern, at);
        assert(stands_at(text, pattern, found));
        assert(text.len() > 0);
        lemma_holds_further_on(text, pattern);
        let (before, after) = lemma_first_place(text.skip(1), pattern);
        let first = seq![text[0]] + before;
        assert(text =~= seq![text[0]] + text.skip(1));
        assert(text =~= first + pattern + after);
        assert forall|at: int| 0 <= at < first.len() implies !stands_at(text, pattern, at) by {
            if at > 0 {
                lemma_stands_further_on(text, pattern, 1, at - 1);
            }
        }
        (first, after)
    }
}

/// What stands before the first place of the pattern stays, the replacement
/// takes that place, and what stands after it is replaced in turn.
pub proof fn lemma_replaced_at_first_place(
    before: Seq<char>,
    pattern: Seq<char>,
    after: Seq<char>,
    with: Seq<char>,
)
    requires
        pattern.len() > 0,
        forall|at: int|
            0 <= at < before.len() ==> !stands_at(before + pattern + after, pattern, at),
    ensures
        replaced(before + pattern + after, pattern, with) == before + with + replaced(
            after,
            pattern,
            with,
        ),
    decreases before.len(),
{
    let text = before + pattern + after;
    if before.len() == 0 {
        assert(text.subrange(0, pattern.len() as int) =~= pattern);
        assert(text.skip(pattern.len() as int) =~= after);
        assert(before + with + replaced(after, pattern, with) =~= with + replaced(
            after,
            pattern,
            with,
        ));
    } else {
        let rest = before.skip(1);
        assert(text.skip(1) =~= rest + pattern + after);
        assert forall|at: int| 0 <= at < rest.len() implies !stands_at(
            rest + pattern + after,
            pattern,
            at,
        ) by {
            lemma_stands_further_on(text, pattern, 1, at);
        }
        assert(!stands_at(text, pattern, 0));
        lemma_replaced_at_first_place(rest, pattern, after, with);
        assert(seq![text[0]] + (rest + with + replaced(after, pattern, with)) =~= before + with
            + replaced(after, pattern, with));
    }
}

proof fn lemma_replaced_lengths(
    text: Seq<char>,
    pattern: Seq<char>,
    left: Seq<char>,
    right: Seq<char>,
)
    requires
        pattern.len() > 0,
        left.len() <= right.len(),
    ensures
        replaced(text, pattern, left).len() <= replaced(text, pattern, right).len(),
        holds(text, pattern) && left.len() < right.len() ==> replaced(text, pattern, left).len()
            < replaced(text, pattern, right).len(),
    decreases text.len(),
{
    if text.len() > 0 {
        if stands_at(text, pattern, 0) {
            lemma_replaced_lengths(text.skip(pattern.len() as int), pattern, left, right);
        } else {
            lemma_replaced_lengths(text.skip(1), pattern, left, right);
            if holds(text, pattern) {
                lemma_holds_further_on(text, pattern);
            }
        }
    }
}

proof fn lemma_holds_further_on(text: Seq<char>, pattern: Seq<char>)
    requires
        text.len() > 0,
        holds(text, pattern),
        !stands_at(text, pattern, 0),
    ensures
        holds(text.skip(1), pattern),
{
    let at = choose|at: int| stands_at(text, pattern, at);
    lemma_stands_further_on(text, pattern, 1, at - 1);
    assert(stands_at(text.skip(1), pattern, at - 1));
}

/// Different replacements make different texts, where there is anything to
/// replace.
pub proof fn lemma_replaced_keeps_replacements_apart(
    text: Seq<char>,
    pattern: Seq<char>,
    left: Seq<char>,
    right: Seq<char>,
)
    requires
        pattern.len() > 0,
        holds(text, pattern),
        replaced(text, pattern, left) == replaced(text, pattern, right),
    ensures
        left == right,
    decreases text.len(),
{
    let whole = replaced(text, pattern, left);
    if left.len() < right.len() {
        lemma_replaced_lengths(text, pattern, left, right);
    }
    if right.len() < left.len() {
        lemma_replaced_lengths(text, pattern, right, left);
    }
    if text.len() == 0 {
        let at = choose|at: int| stands_at(text, pattern, at);
        assert(stands_at(text, pattern, at));
    } else if stands_at(text, pattern, 0) {
        assert(whole.take(left.len() as int) =~= left);
        assert(whole.take(left.len() as int) =~= right);
    } else {
        lemma_holds_further_on(text, pattern);
        let rest = text.skip(1);
        assert(whole.skip(1) =~= replaced(rest, pattern, left));
        assert(whole.skip(1) =~= replaced(rest, pattern, right));
        lemma_replaced_keeps_replacements_apart(rest, pattern, left, right);
    }
}

// Numbers by their places, whatever writes them.

/// The sum of decimal digits, each times ten to the power of how many follow
/// it.
pub open spec fn number(digits: Seq<char>) -> int
    decreases digits.len(),
{
    if digits.len() == 0 {
        0
    } else {
        (digits[0] as int - '0' as int) * pow(10, (digits.len() - 1) as nat) + number(
            digits.skip(1),
        )
    }
}

/// Whether `digits` are decimal digits that spell `n`, with no leading zero.
pub open spec fn is_decimal(digits: Seq<char>, n: int) -> bool {
    &&& digits.len() > 0
    &&& forall|at: int| 0 <= at < digits.len() ==> '0' <= #[trigger] digits[at] <= '9'
    &&& number(digits) == n
    &&& digits.len() > 1 ==> digits[0] != '0'
}

proof fn lemma_number_of_one_more(digits: Seq<char>, last: char)
    ensures
        number(digits.push(last)) == 10 * number(digits) + (last as int - '0' as int),
    decreases digits.len(),
{
    let longer = digits.push(last);
    reveal(pow);
    if digits.len() == 0 {
        reveal_with_fuel(number, 2);
        assert(longer.skip(1) =~= Seq::empty());
    } else {
        lemma_number_of_one_more(digits.skip(1), last);
        assert(longer.skip(1) =~= digits.skip(1).push(last));
        let n = (digits.len() - 1) as nat;
        let first = digits[0] as int - '0' as int;
        let power = pow(10, n);
        assert(pow(10, n + 1) == 10 * power);
        assert(first * (10 * power) == 10 * (first * power)) by (nonlinear_arith);
    }
}

proof fn lemma_digits_are_decimal(n: nat)
    ensures
        is_decimal(digits_of(n), n as int),
        n > 0 ==> digits_of(n)[0] != '0',
    decreases n,
{
    if n < 10 {
        assert(digits_of(n) =~= Seq::empty().push(digit_of(n)));
        lemma_number_of_one_more(Seq::empty(), digit_of(n));
    } else {
        lemma_digits_are_decimal(n / 10);
        lemma_number_of_one_more(digits_of(n / 10), digit_of(n % 10));
    }
}

/// A number is written by its decimal places, with no leading zero, and behind
/// a minus sign where it is negative.
pub proof fn lemma_a_number_is_written_by_places(value: int)
    ensures
        value >= 0 ==> is_decimal(decimal_of(value), value),
        value < 0 ==> decimal_of(value)[0] == '-' && is_decimal(decimal_of(value).skip(1), -value),
{
    if value < 0 {
        lemma_digits_are_decimal((-value) as nat);
        assert(decimal_of(value).skip(1) =~= digits_of((-value) as nat));
    } else {
        lemma_digits_are_decimal(value as nat);
    }
}

/// Whether `digit` is the hexadecimal digit, in lower case, for `n`.
pub open spec fn is_hex_digit(digit: char, n: int) -> bool {
    0 <= n < 16 && digit == "0123456789abcdef"@[n]
}

/// A byte is written as `0x` and its two hexadecimal digits, the higher one
/// first.
pub proof fn lemma_a_byte_is_written_by_places(byte: u8, high: int, low: int)
    requires
        0 <= high < 16,
        0 <= low < 16,
        byte == 16 * high + low,
    ensures
        hex_of(byte).len() == 4,
        hex_of(byte)[0] == '0',
        hex_of(byte)[1] == 'x',
        is_hex_digit(hex_of(byte)[2], high),
        is_hex_digit(hex_of(byte)[3], low),
{
    reveal_strlit("0123456789abcdef");
}

/// To stand in a text at a place is to be there, character for character, with
/// that many characters before it; and a text holds what it can be split
/// around.
pub proof fn lemma_to_stand_is_to_be_there(
    before: Seq<char>,
    pattern: Seq<char>,
    after: Seq<char>,
)
    ensures
        stands_at(before + pattern + after, pattern, before.len() as int),
        holds(before + pattern + after, pattern),
{
    let whole = before + pattern + after;
    let at = before.len() as int;
    assert(whole.subrange(at, at + pattern.len()) =~= pattern);
    assert(stands_at(whole, pattern, at));
}

/// Where something stands in a text, the text is what it has before that place,
/// the thing itself, and what it has after.
pub proof fn lemma_what_stands_is_there(text: Seq<char>, pattern: Seq<char>, at: int)
    requires
        stands_at(text, pattern, at),
    ensures
        0 <= at <= text.len() - pattern.len(),
        text == text.take(at) + pattern + text.skip(at + pattern.len()),
{
    assert(text =~= text.take(at) + text.subrange(at, at + pattern.len()) + text.skip(
        at + pattern.len(),
    ));
}

/// Where a text holds something, there is a place to split it around.
pub proof fn lemma_what_is_held_is_there(text: Seq<char>, pattern: Seq<char>) -> (at: int)
    requires
        holds(text, pattern),
    ensures
        0 <= at <= text.len() - pattern.len(),
        text == text.take(at) + pattern + text.skip(at + pattern.len()),
{
    let at = choose|at: int| stands_at(text, pattern, at);
    assert(stands_at(text, pattern, at));
    lemma_what_stands_is_there(text, pattern, at);
    at
}

/// Replacing goes from left to right: what comes before the first place where
/// the text reads as the pattern stays, the replacement comes there, and the
/// rest is replaced by itself. Without such a place the text stays as it is.
pub proof fn lemma_replacing_goes_from_left_to_right(
    text: Seq<char>,
    pattern: Seq<char>,
    with: Seq<char>,
    at: int,
)
    requires
        pattern.len() > 0,
        0 <= at <= text.len(),
        forall|i: int|
            0 <= i < at && i + pattern.len() <= text.len() ==> #[trigger] text.subrange(
                i,
                i + pattern.len(),
            ) != pattern,
    ensures
        at + pattern.len() <= text.len() && text.subrange(at, at + pattern.len()) == pattern
            ==> replaced(text, pattern, with) == text.take(at) + with + replaced(
            text.skip(at + pattern.len()),
            pattern,
            with,
        ),
        at + pattern.len() > text.len() ==> replaced(text, pattern, with) == text,
{
    if at + pattern.len() > text.len() {
        assert forall|i: int| !stands_at(text, pattern, i) by {
            if stands_at(text, pattern, i) {
                assert(text.subrange(i, i + pattern.len()) == pattern);
            }
        }
        lemma_replaced_without_pattern(text, pattern, with);
    } else if text.subrange(at, at + pattern.len()) == pattern {
        let before = text.take(at);
        let after = text.skip(at + pattern.len());
        assert(before + pattern + after =~= text);
        assert forall|i: int| 0 <= i < before.len() implies !stands_at(text, pattern, i) by {
            if stands_at(text, pattern, i) {
                assert(text.subrange(i, i + pattern.len()) == pattern);
            }
        }
        lemma_replaced_at_first_place(before, pattern, after, with);
    }
}

} // verus!
