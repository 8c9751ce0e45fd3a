//! What a bind takes of X.690: definite lengths, small integers, and one
//! element read off a stream no larger than a bind response honestly is.

use crate::claim::AuthenticateError;
use crate::text::{decimal, hex};
use crate::text;
use vstd::arithmetic::power::pow;
use vstd::prelude::*;

verus! {

/// The tag of an `INTEGER`.
pub const INTEGER: u8 = 0x02;

/// The tag of an `OCTET STRING`.
pub const OCTET_STRING: u8 = 0x04;

/// The tag of an `ENUMERATED`.
pub const ENUMERATED: u8 = 0x0a;

/// The tag of a `SEQUENCE`, constructed.
pub const SEQUENCE: u8 = 0x30;

/// The largest element this reads off a stream. A bind response is a few
/// dozen bytes; a directory that sends more than this is not answering a
/// bind.
pub const LARGEST: usize = 65536;

// Integers, unsigned and in two's complement, the most significant byte first.

/// The number that `bytes` spell, unsigned.
pub open spec fn unsigned_value(bytes: Seq<u8>) -> nat
    decreases bytes.len(),
{
    if bytes.len() == 0 {
        0
    } else {
        256 * unsigned_value(bytes.drop_last()) + bytes.last() as nat
    }
}

/// `n` in the fewest bytes, unsigned.
pub open spec fn unsigned_bytes(n: nat) -> Seq<u8>
    decreases n,
{
    if n <= 0xff {
        seq![n as u8]
    } else {
        unsigned_bytes(n / 256).push((n % 256) as u8)
    }
}

/// The number that one byte spells in two's complement.
pub open spec fn signed_byte(byte: u8) -> int {
    if byte < 0x80 {
        byte as int
    } else {
        byte - 256
    }
}

/// The number that `bytes` spell in two's complement.
pub open spec fn signed_value(bytes: Seq<u8>) -> int
    decreases bytes.len(),
{
    if bytes.len() == 0 {
        0
    } else if bytes.len() == 1 {
        signed_byte(bytes[0])
    } else {
        256 * signed_value(bytes.drop_last()) + bytes.last()
    }
}

/// `value` in the fewest bytes, in two's complement.
pub open spec fn signed_bytes(value: int) -> Seq<u8>
    decreases
            (if value < 0 {
                -value
            } else {
                value
            }),
{
    if -0x80 <= value < 0x80 {
        seq![(value % 256) as u8]
    } else {
        signed_bytes(value / 256).push((value % 256) as u8)
    }
}

/// Half of what `n` bytes can spell: in two's complement they spell what is
/// not under its negative and under it.
spec fn reach(n: nat) -> int
    decreases n,
{
    if n <= 1 {
        0x80
    } else {
        256 * reach((n - 1) as nat)
    }
}

proof fn lemma_reach_of_64_bits()
    ensures
        reach(8) == 0x8000_0000_0000_0000,
{
    reveal_with_fuel(reach, 9);
}

proof fn lemma_reach_grows(m: nat, n: nat)
    requires
        m <= n,
    ensures
        0x80 <= reach(m) <= reach(n),
    decreases n,
{
    if m < n && n > 1 {
        lemma_reach_grows(m, (n - 1) as nat);
    } else if n > 1 {
        lemma_reach_grows((n - 1) as nat, (n - 1) as nat);
    }
}

proof fn lemma_signed_value_is_within_reach(bytes: Seq<u8>)
    requires
        bytes.len() > 0,
    ensures
        -reach(bytes.len()) <= signed_value(bytes) < reach(bytes.len()),
    decreases bytes.len(),
{
    if bytes.len() > 1 {
        lemma_signed_value_is_within_reach(bytes.drop_last());
    }
}

proof fn lemma_signed_bytes_within(value: int, n: nat)
    requires
        n >= 1,
        -reach(n) <= value < reach(n),
    ensures
        1 <= signed_bytes(value).len() <= n,
    decreases n,
{
    if !(-0x80 <= value < 0x80) {
        lemma_signed_bytes_within(value / 256, (n - 1) as nat);
    }
}

/// An integer written in two's complement reads back as itself.
pub proof fn lemma_signed_bytes_read_back(value: int)
    ensures
        signed_bytes(value).len() >= 1,
        signed_value(signed_bytes(value)) == value,
    decreases
            (if value < 0 {
                -value
            } else {
                value
            }),
{
    if !(-0x80 <= value < 0x80) {
        lemma_signed_bytes_read_back(value / 256);
        let front = signed_bytes(value / 256);
        assert(signed_bytes(value).drop_last() =~= front);
    }
}

/// An integer takes the fewest bytes: no shorter run of bytes spells it.
pub proof fn lemma_signed_bytes_are_the_fewest(bytes: Seq<u8>)
    requires
        bytes.len() > 0,
    ensures
        signed_bytes(signed_value(bytes)).len() <= bytes.len(),
    decreases bytes.len(),
{
    let value = signed_value(bytes);
    if bytes.len() > 1 {
        lemma_signed_bytes_are_the_fewest(bytes.drop_last());
        assert(value / 256 == signed_value(bytes.drop_last()));
    }
}

proof fn lemma_unsigned_bytes_read_back(n: nat)
    ensures
        unsigned_bytes(n).len() >= 1,
        unsigned_value(unsigned_bytes(n)) == n,
    decreases n,
{
    if n <= 0xff {
        reveal_with_fuel(unsigned_value, 2);
    } else {
        lemma_unsigned_bytes_read_back(n / 256);
        assert(unsigned_bytes(n).drop_last() =~= unsigned_bytes(n / 256));
    }
}

proof fn lemma_unsigned_bytes_within(n: nat, k: nat)
    requires
        k >= 1,
        n < 2 * reach(k),
    ensures
        unsigned_bytes(n).len() <= k,
    decreases k,
{
    if n > 0xff {
        lemma_unsigned_bytes_within(n / 256, (k - 1) as nat);
    }
}

// Elements: a tag, a length, and as many bytes of contents.

/// The length octets of an element with `n` bytes of contents: one octet
/// under 128, else how many follow and then the fewest that spell `n`.
pub open spec fn length_octets(n: nat) -> Seq<u8> {
    if n < 0x80 {
        seq![n as u8]
    } else {
        seq![(0x80 + unsigned_bytes(n).len()) as u8] + unsigned_bytes(n)
    }
}

/// The element that carries `contents` under `tag`.
pub open spec fn tlv_of(tag: u8, contents: Seq<u8>) -> Seq<u8> {
    seq![tag] + length_octets(contents.len()) + contents
}

/// The element that carries `value` under `tag`.
pub open spec fn integer_of(tag: u8, value: int) -> Seq<u8> {
    tlv_of(tag, signed_bytes(value))
}

/// Whether the first length octet announces a definite length: 0x80 is the
/// indefinite form and 0xff is reserved.
pub open spec fn is_definite(first: u8) -> bool {
    first != 0x80 && first != 0xff
}

/// How many bytes the tag and the length take, which the first length octet
/// says.
pub open spec fn header_size(input: Seq<u8>) -> nat
    recommends
        input.len() >= 2,
{
    if input[1] < 0x80 {
        2
    } else {
        (2 + (input[1] - 0x80)) as nat
    }
}

/// How many bytes of contents the header announces.
pub open spec fn contents_size(input: Seq<u8>) -> nat
    recommends
        input.len() >= 2,
        input.len() >= header_size(input),
{
    if input[1] < 0x80 {
        input[1] as nat
    } else {
        unsigned_value(input.subrange(2, header_size(input) as int))
    }
}

/// What is said of an element that ends before its length does.
pub open spec fn cut_short() -> Seq<char> {
    "an element is cut short"@
}

/// What is said of a length that is not definite.
pub open spec fn not_definite() -> Seq<char> {
    "an element's length is not definite"@
}

/// What is said of an element under another tag than the one expected.
pub open spec fn misplaced(found: u8, expected: u8) -> Seq<char> {
    "an element tagged "@ + text::hex_of(found) + " stands where one tagged "@ + text::hex_of(
        expected,
    ) + " belongs"@
}

/// The element that `input` begins with: its tag, its contents, and what
/// follows it; or what is said where it begins with none.
#[verifier::opaque]
pub open spec fn element_of(input: Seq<u8>) -> Result<(u8, Seq<u8>, Seq<u8>), Seq<char>> {
    if input.len() < 2 {
        Err(cut_short())
    } else if !is_definite(input[1]) {
        Err(not_definite())
    } else if input.len() < header_size(input) || input.len() < header_size(input) + contents_size(
        input,
    ) {
        Err(cut_short())
    } else {
        let from = header_size(input) as int;
        let to = from + contents_size(input);
        Ok((input[0], input.subrange(from, to), input.skip(to)))
    }
}

/// The contents of the element that `input` begins with and what follows it,
/// where that element's tag is `tag`.
pub open spec fn expected_of(input: Seq<u8>, tag: u8) -> Result<(Seq<u8>, Seq<u8>), Seq<char>> {
    match element_of(input) {
        Err(message) => Err(message),
        Ok((found, contents, rest)) => if found == tag {
            Ok((contents, rest))
        } else {
            Err(misplaced(found, tag))
        },
    }
}

/// What is said of an integer without a byte.
pub open spec fn no_integer() -> Seq<char> {
    "an integer has no bytes"@
}

/// What is said of an integer of more than 64 bits.
pub open spec fn integer_too_large() -> Seq<char> {
    "an integer takes more than 64 bits"@
}

/// The integer that `contents` spell.
pub open spec fn integer_in(contents: Seq<u8>) -> Result<i64, Seq<char>> {
    if contents.len() == 0 {
        Err(no_integer())
    } else if contents.len() > 8 {
        Err(integer_too_large())
    } else {
        Ok(signed_value(contents) as i64)
    }
}

/// What a result holds, with the error by its words.
pub open spec fn outcome<T>(result: Result<T, AuthenticateError>) -> Result<T, Seq<char>> {
    match result {
        Ok(value) => Ok(value),
        Err(error) => Err(error.message@),
    }
}

fn unsigned(n: usize) -> (out: Vec<u8>)
    ensures
        out@ == unsigned_bytes(n as nat),
    decreases n,
{
    let mut out = if n <= 0xff {
        Vec::new()
    } else {
        unsigned(n / 256)
    };
    out.push((n % 256) as u8);
    assert(n <= 0xff ==> out@ =~= unsigned_bytes(n as nat));
    out
}

/// `out` with `more` after it.
pub(crate) fn append(out: &mut Vec<u8>, more: &[u8])
    ensures
        final(out)@ == old(out)@ + more@,
{
    out.extend_from_slice(more);
    assert(out@ =~= old(out)@ + more@);
}

/// The element that carries `contents` under `tag`.
#[must_use]
pub fn tlv(tag: u8, contents: &[u8]) -> (out: Vec<u8>)
    ensures
        out@ == tlv_of(tag, contents@),
{
    let mut out: Vec<u8> = Vec::new();
    out.push(tag);
    let length = contents.len();
    if length < 0x80 {
        out.push(length as u8);
    } else {
        let octets = unsigned(length);
        proof {
            lemma_reach_of_64_bits();
            lemma_unsigned_bytes_within(length as nat, 8);
        }
        out.push(0x80 + octets.len() as u8);
        append(&mut out, octets.as_slice());
    }
    assert(out@ =~= seq![tag] + length_octets(length as nat));
    append(&mut out, contents);
    out
}

fn signed(value: i64) -> (out: Vec<u8>)
    ensures
        out@ == signed_bytes(value as int),
    decreases
            (if value < 0 {
                -value as int
            } else {
                value as int
            }),
{
    let high = value >> 8;
    let low = (value & 0xff) as u8;
    assert(value == (value >> 8) * 256 + (value & 0xff) && 0 <= value & 0xff <= 0xff)
        by (bit_vector);
    assert(high == value as int / 256 && low == value as int % 256);
    let mut out = if -0x80 <= value && value < 0x80 {
        Vec::new()
    } else {
        signed(high)
    };
    out.push(low);
    assert(-0x80 <= value < 0x80 ==> out@ =~= signed_bytes(value as int));
    out
}

/// A two's-complement integer in the fewest bytes, under `tag`: `INTEGER`
/// for a message id, `ENUMERATED` for a result code.
#[must_use]
pub fn integer(tag: u8, value: i64) -> (out: Vec<u8>)
    ensures
        out@ == integer_of(tag, value as int),
{
    tlv(tag, signed(value).as_slice())
}

/// The number that `octets` spell, or `usize::MAX` where it is not smaller.
fn size_in(octets: &[u8]) -> (size: usize)
    ensures
        size == usize::MAX <==> unsigned_value(octets@) >= usize::MAX,
        size < usize::MAX ==> size == unsigned_value(octets@),
{
    let mut size: usize = 0;
    let mut at: usize = 0;
    while at < octets.len()
        invariant
            at <= octets@.len(),
            size == usize::MAX <==> unsigned_value(octets@.take(at as int)) >= usize::MAX,
            size < usize::MAX ==> size == unsigned_value(octets@.take(at as int)),
        decreases octets@.len() - at,
    {
        let octet = octets[at];
        assert(octets@.take(at + 1).drop_last() =~= octets@.take(at as int));
        size = if size > usize::MAX / 256 {
            usize::MAX
        } else {
            match (size * 256).checked_add(octet as usize) {
                Some(sum) => sum,
                None => usize::MAX,
            }
        };
        at = at + 1;
    }
    assert(octets@.take(at as int) =~= octets@);
    size
}

/// How many bytes the tag and the length take.
fn header_length(input: &[u8]) -> (length: usize)
    requires
        input@.len() >= 2,
    ensures
        length == header_size(input@),
        2 <= length <= 129,
{
    let first = input[1];
    if first < 0x80 {
        2
    } else {
        2 + (first - 0x80) as usize
    }
}

/// How many bytes of contents the header announces, or `usize::MAX` where
/// there are no fewer.
fn contents_length(input: &[u8]) -> (length: usize)
    requires
        input@.len() >= 2,
        input@.len() >= header_size(input@),
    ensures
        length == usize::MAX <==> contents_size(input@) >= usize::MAX,
        length < usize::MAX ==> length == contents_size(input@),
{
    let first = input[1];
    if first < 0x80 {
        first as usize
    } else {
        size_in(vstd::slice::slice_subrange(input, 2, header_length(input)))
    }
}

/// The element that `input` begins with: its tag, its contents, and what
/// follows it.
///
/// # Errors
///
/// The element is cut short, or its length is not definite.
pub fn read<'a>(input: &'a [u8]) -> (result: Result<
    (u8, &'a [u8], &'a [u8]),
    AuthenticateError,
>)
    ensures
        match (result, element_of(input@)) {
            (Ok((tag, contents, rest)), Ok(element)) => (tag, contents@, rest@) == element,
            (Err(error), Err(message)) => error.message@ == message,
            _ => false,
        },
{
    proof {
        reveal(element_of);
    }
    if input.len() < 2 {
        return Err(AuthenticateError::saying("an element is cut short"));
    }
    let first = input[1];
    if first == 0x80 || first == 0xff {
        return Err(AuthenticateError::saying("an element's length is not definite"));
    }
    let from = header_length(input);
    if input.len() < from {
        return Err(AuthenticateError::saying("an element is cut short"));
    }
    let size = contents_length(input);
    if input.len() - from < size {
        return Err(AuthenticateError::saying("an element is cut short"));
    }
    let (element, rest) = input.split_at(from + size);
    let (_, contents) = element.split_at(from);
    assert(contents@ =~= input@.subrange(from as int, from + size));
    Ok((input[0], contents, rest))
}

/// The contents of the element that `input` begins with and what follows it,
/// where that element's tag is `tag`.
///
/// # Errors
///
/// `input` does not begin with an element, or with one under another tag.
pub fn expect<'a>(input: &'a [u8], tag: u8) -> (result: Result<
    (&'a [u8], &'a [u8]),
    AuthenticateError,
>)
    ensures
        match (result, expected_of(input@, tag)) {
            (Ok((contents, rest)), Ok(element)) => (contents@, rest@) == element,
            (Err(error), Err(message)) => error.message@ == message,
            _ => false,
        },
{
    match read(input) {
        Err(error) => Err(error),
        Ok((found, contents, rest)) => if found == tag {
            Ok((contents, rest))
        } else {
            let mut message = "an element tagged ".to_owned();
            message.append(hex(found).as_str());
            message.append(" stands where one tagged ");
            message.append(hex(tag).as_str());
            message.append(" belongs");
            Err(AuthenticateError::new(message))
        },
    }
}

/// The integer that `contents` spell in two's complement.
///
/// # Errors
///
/// There is no byte to read, or more than an `i64` holds.
pub fn read_integer(contents: &[u8]) -> (result: Result<i64, AuthenticateError>)
    ensures
        outcome(result) == integer_in(contents@),
        result matches Ok(value) ==> value == signed_value(contents@),
{
    if contents.len() == 0 {
        return Err(AuthenticateError::saying("an integer has no bytes"));
    }
    if contents.len() > 8 {
        return Err(AuthenticateError::saying("an integer takes more than 64 bits"));
    }
    let first = contents[0];
    let mut value: i64 = if first < 0x80 {
        first as i64
    } else {
        first as i64 - 256
    };
    let mut at: usize = 1;
    assert(contents@.take(1)[0] == first);
    while at < contents.len()
        invariant
            1 <= at <= contents@.len() <= 8,
            value == signed_value(contents@.take(at as int)),
        decreases contents@.len() - at,
    {
        let ghost longer = contents@.take(at + 1);
        proof {
            assert(longer.drop_last() =~= contents@.take(at as int));
            lemma_signed_value_is_within_reach(longer);
            lemma_reach_grows(longer.len(), 8);
            lemma_reach_of_64_bits();
        }
        value = value * 256 + contents[at] as i64;
        at = at + 1;
    }
    assert(contents@.take(at as int) =~= contents@);
    Ok(value)
}

// One element off a stream.

/// What is said of an element larger than [`LARGEST`].
pub open spec fn too_large() -> Seq<char> {
    "the element is larger than the "@ + text::decimal_of(LARGEST as int) + " bytes this reads"@
}

/// What is said of a stream that ends within an element.
pub open spec fn ended() -> Seq<char> {
    "the stream ended within an element"@
}

/// How many bytes of an element a stream is still to be asked for once it has
/// given `got`: the tag and the first length octet, then the rest of the
/// length, then the contents.
pub open spec fn wanted_after(got: Seq<u8>) -> Result<nat, Seq<char>> {
    if got.len() < 2 {
        Ok((2 - got.len()) as nat)
    } else if !is_definite(got[1]) {
        Err(not_definite())
    } else if got.len() < header_size(got) {
        Ok((header_size(got) - got.len()) as nat)
    } else if header_size(got) + contents_size(got) > LARGEST {
        Err(too_large())
    } else if got.len() < header_size(got) + contents_size(got) {
        Ok((header_size(got) + contents_size(got) - got.len()) as nat)
    } else {
        Ok(0)
    }
}

/// What reading one element off `stream` comes to, and what is then left of
/// the stream: the element with its tag and length, and all that follows it;
/// or what is said where there is none, and all that was not looked at. Where
/// the stream ends first, that is `ending`.
pub open spec fn first_element(stream: Seq<u8>, ending: Seq<char>) -> (
    Result<Seq<u8>, Seq<char>>,
    Seq<u8>,
) {
    if stream.len() < 2 {
        (Err(ending), Seq::empty())
    } else if !is_definite(stream[1]) {
        (Err(not_definite()), stream.skip(2))
    } else if stream.len() < header_size(stream) {
        (Err(ending), Seq::empty())
    } else if header_size(stream) + contents_size(stream) > LARGEST {
        (Err(too_large()), stream.skip(header_size(stream) as int))
    } else if stream.len() < header_size(stream) + contents_size(stream) {
        (Err(ending), Seq::empty())
    } else {
        let size = (header_size(stream) + contents_size(stream)) as int;
        (Ok(stream.take(size)), stream.skip(size))
    }
}

/// What is said of an answer that cannot be read for the reason `message`.
pub open spec fn in_the_answer(message: Seq<char>) -> Seq<char> {
    "the directory's answer: "@ + message
}

/// A header reads the same off whatever begins with it.
pub proof fn lemma_header_of_a_prefix(got: Seq<u8>, more: Seq<u8>)
    requires
        got.len() >= 2,
    ensures
        header_size(got + more) == header_size(got),
        got.len() >= header_size(got) ==> contents_size(got + more) == contents_size(got),
{
    if got.len() >= header_size(got) {
        let size = header_size(got) as int;
        assert((got + more).subrange(2, size) =~= got.subrange(2, size));
    }
}

/// Whether `got` goes no further than one element: up to somewhere in its
/// header, or up to somewhere in its contents.
pub open spec fn is_part(got: Seq<u8>) -> bool {
    ||| got.len() <= 2
    ||| got.len() <= header_size(got)
    ||| got.len() <= header_size(got) + contents_size(got)
}

/// Asking a stream for what is wanted, time after time, leads to its first
/// element and no byte further, whatever part of it the stream gives at a time.
pub proof fn lemma_wanted_leads_to_the_first_element(
    got: Seq<u8>,
    more: Seq<u8>,
    ending: Seq<char>,
)
    requires
        is_part(got),
    ensures
        match wanted_after(got) {
            Err(message) => first_element(got + more, ending).0 == Err::<Seq<u8>, _>(message),
            Ok(count) => {
                &&& count == 0 ==> first_element(got + more, ending).0 == Ok::<_, Seq<char>>(got)
                &&& more.len() < count ==> first_element(got + more, ending).0 == Err::<
                    Seq<u8>,
                    _,
                >(ending)
                &&& more.len() <= count ==> is_part(got + more)
            },
        },
{
    if got.len() >= 2 {
        lemma_header_of_a_prefix(got, more);
        if wanted_after(got) == Ok::<nat, Seq<char>>(0) {
            assert((got + more).take(got.len() as int) =~= got);
        }
    }
}

/// How many bytes of an element a stream is still to be asked for once it has
/// given `got`; zero where `got` holds it whole.
///
/// # Errors
///
/// The element's length is not definite, or the element is larger than
/// [`LARGEST`].
pub fn wanted(got: &[u8]) -> (result: Result<usize, AuthenticateError>)
    ensures
        match (result, wanted_after(got@)) {
            (Ok(count), Ok(expected)) => count == expected,
            (Err(error), Err(message)) => error.message@ == message,
            _ => false,
        },
{
    if got.len() < 2 {
        return Ok(2 - got.len());
    }
    let first = got[1];
    if first == 0x80 || first == 0xff {
        return Err(AuthenticateError::saying("an element's length is not definite"));
    }
    let from = header_length(got);
    if got.len() < from {
        return Ok(from - got.len());
    }
    let size = contents_length(got);
    if size > LARGEST - from {
        let mut message = "the element is larger than the ".to_owned();
        message.append(decimal(LARGEST as i64).as_str());
        message.append(" bytes this reads");
        return Err(AuthenticateError::new(message));
    }
    if got.len() < from + size {
        Ok(from + size - got.len())
    } else {
        Ok(0)
    }
}

/// The error of an answer that cannot be read for the reason `message`.
pub fn unreadable(message: &str) -> (error: AuthenticateError)
    ensures
        error.message@ == in_the_answer(message@),
{
    let mut whole = "the directory's answer: ".to_owned();
    whole.append(message);
    AuthenticateError::new(whole)
}

/// One whole element of the directory's answer off a stream, tag and length
/// included.
///
/// # Errors
///
/// The stream ends first, or the element's length is not definite, or the
/// element is larger than [`LARGEST`].
pub fn read_element(stream: &mut &[u8]) -> (result: Result<Vec<u8>, AuthenticateError>)
    ensures
        final(stream)@ == first_element(old(stream)@, ended()).1,
        match (result, first_element(old(stream)@, ended()).0) {
            (Ok(element), Ok(expected)) => element@ == expected,
            (Err(error), Err(message)) => error.message@ == in_the_answer(message),
            _ => false,
        },
{
    let ghost whole = stream@;
    let mut got: Vec<u8> = Vec::new();
    assert(got@ + stream@ =~= whole);
    loop
        invariant
            got@ + stream@ == whole,
            whole == old(stream)@,
            got@.len() == 0 || got@.len() == 2 || {
                &&& got@.len() > 2
                &&& is_definite(whole[1])
                &&& got@.len() == header_size(whole) || {
                    &&& got@.len() == header_size(whole) + contents_size(whole)
                    &&& got@.len() <= LARGEST
                }
            },
        decreases stream@.len(),
    {
        proof {
            if got@.len() >= 2 {
                lemma_header_of_a_prefix(got@, stream@);
            }
        }
        let count = match wanted(got.as_slice()) {
            Err(error) => {
                assert(stream@ =~= whole.skip(got@.len() as int));
                return Err(unreadable(error.message.as_str()));
            },
            Ok(count) => count,
        };
        if count == 0 {
            assert(stream@ =~= whole.skip(got@.len() as int));
            assert(got@ =~= whole.take(got@.len() as int));
            return Ok(got);
        }
        if stream.len() < count {
            let (_, rest) = stream.split_at(stream.len());
            *stream = rest;
            assert(stream@ =~= Seq::<u8>::empty());
            return Err(unreadable("the stream ended within an element"));
        }
        let (taken, rest) = stream.split_at(count);
        append(&mut got, taken);
        *stream = rest;
        assert(got@ + stream@ =~= whole);
    }
}

// What holds of writing and reading together.

/// The header of a written element announces its contents.
proof fn lemma_header_of_tlv(tag: u8, contents: Seq<u8>, rest: Seq<u8>)
    requires
        contents.len() <= usize::MAX,
    ensures
        ({
            let input = tlv_of(tag, contents) + rest;
            &&& input.len() >= 2
            &&& input[0] == tag
            &&& is_definite(input[1])
            &&& header_size(input) == 1 + length_octets(contents.len()).len()
            &&& contents_size(input) == contents.len()
        }),
{
    let input = tlv_of(tag, contents) + rest;
    let n = contents.len();
    if n >= 0x80 {
        lemma_unsigned_bytes_read_back(n);
        lemma_reach_of_64_bits();
        lemma_unsigned_bytes_within(n, 8);
        let octets = unsigned_bytes(n);
        assert(input[1] == 0x80 + octets.len());
        assert(input.subrange(2, header_size(input) as int) =~= octets);
    }
}

/// An element that was written reads back, under its tag, with its contents
/// and with whatever follows it.
pub proof fn lemma_tlv_reads_back(tag: u8, contents: Seq<u8>, rest: Seq<u8>)
    requires
        contents.len() <= usize::MAX,
    ensures
        element_of(tlv_of(tag, contents) + rest) == Ok::<_, Seq<char>>((tag, contents, rest)),
        expected_of(tlv_of(tag, contents) + rest, tag) == Ok::<_, Seq<char>>((contents, rest)),
{
    reveal(element_of);
    let input = tlv_of(tag, contents) + rest;
    lemma_header_of_tlv(tag, contents, rest);
    let from = header_size(input) as int;
    assert(input.subrange(from, from + contents.len()) =~= contents);
    assert(input.skip(from + contents.len()) =~= rest);
}

/// An element that was written and cut short, wherever it is cut, is refused
/// as such.
pub proof fn lemma_tlv_cut_short_is_refused(tag: u8, contents: Seq<u8>, k: int)
    requires
        contents.len() <= usize::MAX,
        0 <= k < tlv_of(tag, contents).len(),
    ensures
        element_of(tlv_of(tag, contents).take(k)) == Err::<(u8, Seq<u8>, Seq<u8>), _>(cut_short()),
{
    reveal(element_of);
    let whole = tlv_of(tag, contents);
    lemma_header_of_tlv(tag, contents, Seq::empty());
    assert(whole + Seq::<u8>::empty() =~= whole);
    assert(whole.take(k) + whole.skip(k) =~= whole);
    if k >= 2 {
        lemma_header_of_a_prefix(whole.take(k), whole.skip(k));
    }
}

/// An integer that was written reads back.
pub proof fn lemma_integer_reads_back(value: i64)
    ensures
        1 <= signed_bytes(value as int).len() <= 8,
        integer_in(signed_bytes(value as int)) == Ok::<_, Seq<char>>(value),
{
    lemma_signed_bytes_read_back(value as int);
    lemma_reach_of_64_bits();
    lemma_signed_bytes_within(value as int, 8);
}

/// An element no larger than [`LARGEST`] comes off a stream whole, and what
/// follows it stays there.
pub proof fn lemma_element_comes_off_a_stream(
    tag: u8,
    contents: Seq<u8>,
    rest: Seq<u8>,
    ending: Seq<char>,
)
    requires
        tlv_of(tag, contents).len() <= LARGEST,
    ensures
        first_element(tlv_of(tag, contents) + rest, ending) == (
            Ok::<_, Seq<char>>(tlv_of(tag, contents)),
            rest,
        ),
{
    let element = tlv_of(tag, contents);
    lemma_header_of_tlv(tag, contents, rest);
    assert((element + rest).take(element.len() as int) =~= element);
    assert((element + rest).skip(element.len() as int) =~= rest);
}

/// What comes off a stream is one element and nothing after it, is what the
/// stream began with, and is no larger than [`LARGEST`].
pub proof fn lemma_what_comes_off_a_stream_is_one_element(stream: Seq<u8>, ending: Seq<char>)
    ensures
        first_element(stream, ending).0 matches Ok(element) ==> {
            &&& element + first_element(stream, ending).1 == stream
            &&& element.len() <= LARGEST
            &&& element_of(element) matches Ok((tag, contents, rest)) && rest.len() == 0
        },
{
    reveal(element_of);
    if let Ok(element) = first_element(stream, ending).0 {
        let rest = first_element(stream, ending).1;
        assert(element + rest =~= stream);
        lemma_header_of_a_prefix(element, rest);
    }
}

// Elements and integers by their places, whatever writes or reads them.

/// The sum of `bytes`, each times 256 to the power of how many follow it.
pub open spec fn weight(bytes: Seq<u8>) -> int
    decreases bytes.len(),
{
    if bytes.len() == 0 {
        0
    } else {
        bytes[0] * pow(256, (bytes.len() - 1) as nat) + weight(bytes.skip(1))
    }
}

/// Two's complement: the weight of `bytes`, less 256 to the power of their
/// number where the top bit of the first is set.
pub open spec fn complement(bytes: Seq<u8>) -> int {
    if bytes.len() > 0 && bytes[0] >= 0x80 {
        weight(bytes) - pow(256, bytes.len())
    } else {
        weight(bytes)
    }
}

/// Whether `bytes` are one element and nothing else: `tag`, then a definite
/// length that says how many bytes `contents` are, then `contents`. The length
/// is one byte under 0x80, or else a byte that says how many follow it and so
/// many bytes.
pub open spec fn is_element(bytes: Seq<u8>, tag: u8, contents: Seq<u8>) -> bool {
    let header = bytes.len() - contents.len();
    &&& header >= 2
    &&& bytes[0] == tag
    &&& bytes.skip(header) == contents
    &&& if header == 2 {
        bytes[1] < 0x80 && bytes[1] == contents.len()
    } else {
        &&& bytes[1] < 0xff && bytes[1] == 0x80 + (header - 2)
        &&& weight(bytes.subrange(2, header)) == contents.len()
    }
}

/// Whether `bytes` are that element with its length in the fewest bytes.
pub open spec fn is_shortest_element(bytes: Seq<u8>, tag: u8, contents: Seq<u8>) -> bool {
    &&& is_element(bytes, tag, contents)
    &&& bytes[1] < 0x80 <==> contents.len() < 0x80
    &&& contents.len() >= 0x80 ==> bytes[2] != 0
}

/// Whether `bytes` spell `value` in two's complement, and the first of them
/// does not only repeat the top bit of the second.
pub open spec fn is_shortest_integer(bytes: Seq<u8>, value: int) -> bool {
    &&& bytes.len() >= 1
    &&& complement(bytes) == value
    &&& bytes.len() >= 2 ==> !(bytes[0] == 0 && bytes[1] < 0x80) && !(bytes[0] == 0xff && bytes[1]
        >= 0x80)
}

proof fn lemma_weight_of_one_more(bytes: Seq<u8>, last: u8)
    ensures
        weight(bytes.push(last)) == 256 * weight(bytes) + last,
    decreases bytes.len(),
{
    let longer = bytes.push(last);
    reveal(pow);
    if bytes.len() == 0 {
        reveal_with_fuel(weight, 2);
        assert(longer.skip(1) =~= Seq::empty());
    } else {
        lemma_weight_of_one_more(bytes.skip(1), last);
        assert(longer.skip(1) =~= bytes.skip(1).push(last));
        let n = (bytes.len() - 1) as nat;
        let first = bytes[0] as int;
        let power = pow(256, n);
        assert(pow(256, n + 1) == 256 * power);
        assert(first * (256 * power) == 256 * (first * power)) by (nonlinear_arith);
    }
}

/// Unsigned bytes are read by their places.
pub proof fn lemma_unsigned_is_by_places(bytes: Seq<u8>)
    ensures
        unsigned_value(bytes) == weight(bytes),
    decreases bytes.len(),
{
    if bytes.len() > 0 {
        lemma_unsigned_is_by_places(bytes.drop_last());
        lemma_weight_of_one_more(bytes.drop_last(), bytes.last());
        assert(bytes.drop_last().push(bytes.last()) =~= bytes);
    }
}

proof fn lemma_complement_of_one_more(bytes: Seq<u8>, last: u8)
    requires
        bytes.len() > 0,
    ensures
        complement(bytes.push(last)) == 256 * complement(bytes) + last,
{
    lemma_weight_of_one_more(bytes, last);
    reveal(pow);
    assert(pow(256, bytes.len() + 1) == 256 * pow(256, bytes.len()));
}

/// Signed bytes are read in two's complement, by their places; so one byte is
/// itself under 0x80, and itself less 256 from there on.
pub proof fn lemma_signed_is_twos_complement(bytes: Seq<u8>)
    requires
        bytes.len() > 0,
    ensures
        signed_value(bytes) == complement(bytes),
        bytes.len() == 1 ==> signed_value(bytes) == (if bytes[0] < 0x80 {
            bytes[0] as int
        } else {
            bytes[0] - 256
        }),
    decreases bytes.len(),
{
    if bytes.len() == 1 {
        lemma_weight_of_one_more(Seq::empty(), bytes[0]);
        assert(Seq::<u8>::empty().push(bytes[0]) =~= bytes);
        vstd::arithmetic::power::lemma_pow1(256);
    } else {
        lemma_signed_is_twos_complement(bytes.drop_last());
        lemma_complement_of_one_more(bytes.drop_last(), bytes.last());
        assert(bytes.drop_last().push(bytes.last()) =~= bytes);
    }
}

/// An integer is read in two's complement, by its places, from one byte to
/// eight; from no byte, and from more, it is not read, and that is said.
pub proof fn lemma_an_integer_is_read_in_twos_complement(contents: Seq<u8>)
    ensures
        match integer_in(contents) {
            Ok(value) => 1 <= contents.len() <= 8 && value == complement(contents),
            Err(message) => if contents.len() == 0 {
                message == "an integer has no bytes"@
            } else {
                contents.len() > 8 && message == "an integer takes more than 64 bits"@
            },
        },
{
    if 1 <= contents.len() <= 8 {
        lemma_signed_is_twos_complement(contents);
        lemma_signed_value_is_within_reach(contents);
        lemma_reach_grows(contents.len(), 8);
        lemma_reach_of_64_bits();
    }
}

/// What is written for an integer spells it in two's complement, and in no more
/// bytes than that takes.
pub proof fn lemma_an_integer_is_written_in_twos_complement(value: int)
    ensures
        is_shortest_integer(signed_bytes(value), value),
    decreases
            (if value < 0 {
                -value
            } else {
                value
            }),
{
    let bytes = signed_bytes(value);
    lemma_signed_bytes_read_back(value);
    lemma_signed_is_twos_complement(bytes);
    if !(-0x80 <= value < 0x80) {
        let high = value / 256;
        let front = signed_bytes(high);
        lemma_an_integer_is_written_in_twos_complement(high);
        lemma_signed_bytes_read_back(high);
        assert(bytes[0] == front[0]);
        if front.len() == 1 {
            lemma_signed_is_twos_complement(front);
        } else {
            assert(bytes[1] == front[1]);
        }
    }
}

proof fn lemma_first_unsigned_byte(n: nat)
    requires
        n > 0,
    ensures
        unsigned_bytes(n).len() > 0,
        unsigned_bytes(n)[0] != 0,
    decreases n,
{
    if n > 0xff {
        lemma_first_unsigned_byte(n / 256);
    }
}

/// What is written for an element is that element, with its length in the
/// fewest bytes.
pub proof fn lemma_an_element_is_written_by_places(tag: u8, contents: Seq<u8>)
    requires
        contents.len() <= usize::MAX,
    ensures
        is_shortest_element(tlv_of(tag, contents), tag, contents),
{
    let bytes = tlv_of(tag, contents);
    let n = contents.len();
    lemma_header_of_tlv(tag, contents, Seq::empty());
    assert(bytes + Seq::<u8>::empty() =~= bytes);
    let header = bytes.len() - n;
    assert(bytes.skip(header) =~= contents);
    if n >= 0x80 {
        lemma_unsigned_bytes_read_back(n);
        lemma_first_unsigned_byte(n);
        lemma_unsigned_is_by_places(unsigned_bytes(n));
        assert(bytes.subrange(2, header) =~= unsigned_bytes(n));
        assert(bytes[2] == unsigned_bytes(n)[0]);
    }
}

proof fn lemma_header_of_an_element(bytes: Seq<u8>, tag: u8, contents: Seq<u8>, rest: Seq<u8>)
    requires
        is_element(bytes, tag, contents),
    ensures
        bytes.len() >= 2,
        is_definite(bytes[1]),
        header_size(bytes) == bytes.len() - contents.len(),
        contents_size(bytes) == contents.len(),
        header_size(bytes + rest) == header_size(bytes),
        contents_size(bytes + rest) == contents_size(bytes),
{
    lemma_header_of_a_prefix(bytes, rest);
    if bytes[1] >= 0x80 {
        lemma_unsigned_is_by_places(bytes.subrange(2, header_size(bytes) as int));
    }
}

/// Every element is read as what it is, whatever follows it, whether or not its
/// length is in the fewest bytes; and under its own tag alone.
pub proof fn lemma_every_element_is_read(
    bytes: Seq<u8>,
    tag: u8,
    contents: Seq<u8>,
    rest: Seq<u8>,
)
    requires
        is_element(bytes, tag, contents),
    ensures
        element_of(bytes + rest) == Ok::<_, Seq<char>>((tag, contents, rest)),
        expected_of(bytes + rest, tag) == Ok::<_, Seq<char>>((contents, rest)),
        forall|other: u8|
            other != tag ==> #[trigger] expected_of(bytes + rest, other) == Err::<
                (Seq<u8>, Seq<u8>),
                _,
            >(
                "an element tagged "@ + text::hex_of(tag) + " stands where one tagged "@
                    + text::hex_of(other) + " belongs"@,
            ),
{
    reveal(element_of);
    lemma_header_of_an_element(bytes, tag, contents, rest);
    let input = bytes + rest;
    let from = header_size(input) as int;
    assert(input.subrange(from, from + contents.len()) =~= bytes.skip(from));
    assert(input.skip(from + contents.len()) =~= rest);
}

/// Nothing is read that is not there: what is read as an element is one, and
/// what is left is what follows it. Where none is read, the length is not
/// definite or the bytes end too soon, and that is what is said.
pub proof fn lemma_what_is_read_is_an_element(input: Seq<u8>)
    ensures
        match element_of(input) {
            Ok((tag, contents, rest)) => {
                let size = input.len() - rest.len();
                &&& 0 <= size
                &&& is_element(input.take(size), tag, contents)
                &&& rest == input.skip(size)
            },
            Err(message) => message == (if input.len() >= 2 && (input[1] == 0x80 || input[1]
                == 0xff) {
                "an element's length is not definite"@
            } else {
                "an element is cut short"@
            }),
        },
        forall|tag: u8|
            match #[trigger] expected_of(input, tag) {
                Ok((contents, rest)) => element_of(input) == Ok::<_, Seq<char>>(
                    (tag, contents, rest),
                ),
                Err(message) => match element_of(input) {
                    Ok((found, _, _)) => found != tag,
                    Err(other) => message == other,
                },
            },
{
    reveal(element_of);
    if let Ok((tag, contents, rest)) = element_of(input) {
        let from = header_size(input) as int;
        let size = input.len() - rest.len();
        let whole = input.take(size);
        assert(whole.skip(from) =~= contents);
        if input[1] >= 0x80 {
            assert(whole.subrange(2, from) =~= input.subrange(2, from));
            lemma_unsigned_is_by_places(input.subrange(2, from));
        }
        assert(rest =~= input.skip(size));
        assert(whole.len() - contents.len() == from);
    }
}

/// An element of at most 65536 bytes comes off a stream whole, whether or not
/// its length is in the fewest bytes, and what follows it stays. Cut short, it
/// does not, and all of the stream has been taken.
pub proof fn lemma_every_element_comes_off_a_stream(
    bytes: Seq<u8>,
    tag: u8,
    contents: Seq<u8>,
    rest: Seq<u8>,
    ending: Seq<char>,
)
    requires
        is_element(bytes, tag, contents),
        bytes.len() <= 65536,
    ensures
        first_element(bytes + rest, ending) == (Ok::<_, Seq<char>>(bytes), rest),
        forall|size: int|
            0 <= size < bytes.len() ==> #[trigger] first_element(bytes.take(size), ending) == (
                Err::<Seq<u8>, _>(ending),
                Seq::<u8>::empty(),
            ),
{
    lemma_header_of_an_element(bytes, tag, contents, rest);
    assert((bytes + rest).take(bytes.len() as int) =~= bytes);
    assert((bytes + rest).skip(bytes.len() as int) =~= rest);
    assert forall|size: int| 0 <= size < bytes.len() implies #[trigger] first_element(
        bytes.take(size),
        ending,
    ) == (Err::<Seq<u8>, _>(ending), Seq::<u8>::empty()) by {
        let part = bytes.take(size);
        assert(part + bytes.skip(size) =~= bytes);
        if size >= 2 {
            lemma_header_of_a_prefix(part, bytes.skip(size));
        }
    }
}

/// Nothing comes off a stream but an element, of at most 65536 bytes, that the
/// stream begins with.
pub proof fn lemma_nothing_else_comes_off_a_stream(stream: Seq<u8>, ending: Seq<char>)
    ensures
        first_element(stream, ending).0 matches Ok(element) ==> {
            &&& element.len() <= 65536
            &&& element + first_element(stream, ending).1 == stream
            &&& exists|tag: u8, contents: Seq<u8>| is_element(element, tag, contents)
        },
{
    if let Ok(element) = first_element(stream, ending).0 {
        lemma_what_comes_off_a_stream_is_one_element(stream, ending);
        lemma_what_is_read_is_an_element(element);
        let (tag, contents, rest) = element_of(element)->Ok_0;
        assert(element.take(element.len() as int) =~= element);
        assert(is_element(element, tag, contents));
    }
}

/// An element whose header announces more than 65536 bytes in all is refused by
/// its header alone, and so is one whose length is not definite.
pub proof fn lemma_a_stream_is_refused_by_the_header(
    header: Seq<u8>,
    rest: Seq<u8>,
    ending: Seq<char>,
)
    requires
        header.len() >= 2,
    ensures
        header.len() > 2 && header[1] < 0xff && header[1] == 0x80 + (header.len() - 2)
            && header.len() + weight(header.skip(2)) > 65536 ==> first_element(
            header + rest,
            ending,
        ) == (
            Err::<Seq<u8>, _>(
                "the element is larger than the "@ + text::decimal_of(65536)
                    + " bytes this reads"@,
            ),
            rest,
        ),
        header.len() > 2 && header[1] < 0xff && header[1] == 0x80 + (header.len() - 2)
            && header.len() + weight(header.skip(2)) > 65536 ==> wanted_after(header + rest)
            == Err::<nat, _>(
            "the element is larger than the "@ + text::decimal_of(65536) + " bytes this reads"@,
        ),
        header.len() == 2 && (header[1] == 0x80 || header[1] == 0xff) ==> first_element(
            header + rest,
            ending,
        ) == (Err::<Seq<u8>, _>("an element's length is not definite"@), rest) && wanted_after(
            header + rest,
        ) == Err::<nat, _>("an element's length is not definite"@),
{
    lemma_header_of_a_prefix(header, rest);
    let size = header.len() as int;
    assert((header + rest).skip(size) =~= rest);
    assert(header.subrange(2, size) =~= header.skip(2));
    lemma_unsigned_is_by_places(header.skip(2));
}

/// A stream that ends within the header of an element, whatever the element,
/// gives none, and all of it has been taken; and no more is asked for than the
/// header has.
pub proof fn lemma_a_stream_that_ends_in_the_header(stream: Seq<u8>, ending: Seq<char>)
    requires
        stream.len() < 2 || (0x80 < stream[1] < 0xff && stream.len() < 2 + (stream[1] - 0x80)),
    ensures
        first_element(stream, ending) == (Err::<Seq<u8>, _>(ending), Seq::<u8>::empty()),
        wanted_after(stream) matches Ok(count) && count > 0 && stream.len() + count <= (
        if stream.len() < 2 {
            2
        } else {
            2 + (stream[1] - 0x80)
        }),
{
}

/// What is said of an answer that cannot be read names it as the directory's,
/// and then gives the reason whole; that the stream ended is such a reason.
pub proof fn lemma_whose_answer_it_is_is_said(message: Seq<char>)
    ensures
        in_the_answer(message) == "the directory's answer: "@ + message,
        ended() == "the stream ended within an element"@,
{
}

/// A result's outcome is what it holds: the value itself, or the error's words.
pub proof fn lemma_an_outcome_is_what_a_result_holds<T>(value: T, error: AuthenticateError)
    ensures
        outcome(Ok::<T, AuthenticateError>(value)) == Ok::<T, Seq<char>>(value),
        outcome(Err::<T, AuthenticateError>(error)) == Err::<T, Seq<char>>(error.message@),
{
}

/// Of an element of at most 65536 bytes never more is asked for than it has,
/// something is asked for until it is whole, and then nothing.
pub proof fn lemma_no_more_is_wanted_than_there_is(
    bytes: Seq<u8>,
    tag: u8,
    contents: Seq<u8>,
    size: int,
)
    requires
        is_element(bytes, tag, contents),
        bytes.len() <= 65536,
        0 <= size <= bytes.len(),
    ensures
        wanted_after(bytes.take(size)) matches Ok(count) && size + count <= bytes.len() && (count
            == 0 <==> size == bytes.len()),
{
    let part = bytes.take(size);
    lemma_header_of_an_element(bytes, tag, contents, Seq::empty());
    assert(part + bytes.skip(size) =~= bytes);
    if size >= 2 {
        lemma_header_of_a_prefix(part, bytes.skip(size));
    }
}

/// An integer is written as one element under its tag, which spells it in two's
/// complement in the fewest bytes.
pub proof fn lemma_an_integer_is_written_as_one_element(tag: u8, value: i64) -> (contents: Seq<u8>)
    ensures
        is_shortest_element(integer_of(tag, value as int), tag, contents),
        is_shortest_integer(contents, value as int),
{
    let contents = signed_bytes(value as int);
    lemma_integer_reads_back(value);
    lemma_an_integer_is_written_in_twos_complement(value as int);
    lemma_an_element_is_written_by_places(tag, contents);
    contents
}

/// Nothing more is asked for once an element of at most 65536 bytes is there,
/// whatever came after it.
pub proof fn lemma_nothing_is_wanted_after_an_element(
    bytes: Seq<u8>,
    tag: u8,
    contents: Seq<u8>,
    rest: Seq<u8>,
)
    requires
        is_element(bytes, tag, contents),
        bytes.len() <= 65536,
    ensures
        wanted_after(bytes + rest) == Ok::<nat, Seq<char>>(0),
{
    lemma_header_of_an_element(bytes, tag, contents, rest);
}

} // verus!
