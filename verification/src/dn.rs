//! A name inside a DN: RFC 4514's escaping, and what it keeps.

use crate::text::characters;
use vstd::prelude::*;

verus! {

/// Whether `character` is one that RFC 4514 gives a meaning inside a DN
/// wherever it stands.
pub open spec fn is_special(character: char) -> bool {
    ||| character == '"'
    ||| character == '+'
    ||| character == ','
    ||| character == ';'
    ||| character == '<'
    ||| character == '>'
    ||| character == '\\'
    ||| character == '='
}

/// What the character at `at` of `value` becomes inside a DN.
pub open spec fn escaped_at(value: Seq<char>, at: int) -> Seq<char> {
    let character = value[at];
    if character == '\0' {
        seq!['\\', '0', '0']
    } else if is_special(character) || (character == '#' && at == 0) || (character == ' ' && (at
        == 0 || at == value.len() - 1)) {
        seq!['\\', character]
    } else {
        seq![character]
    }
}

/// What `value` becomes inside a DN from `at` on.
pub open spec fn escaped_from(value: Seq<char>, at: int) -> Seq<char>
    decreases value.len() - at,
{
    if at < 0 || at >= value.len() {
        Seq::empty()
    } else {
        escaped_at(value, at) + escaped_from(value, at + 1)
    }
}

/// What `value` becomes inside a DN.
pub open spec fn escaped(value: Seq<char>) -> Seq<char> {
    escaped_from(value, 0)
}

/// A value as it may stand inside a DN: RFC 4514 section 2.4's escaping.
#[must_use]
pub fn escape(value: &str) -> (out: String)
    ensures
        out@ == escaped(value@),
{
    let text = characters(value);
    let mut out = String::new();
    let mut at: usize = 0;
    assert(out@ + escaped_from(value@, 0) =~= escaped(value@));
    while at < text.len()
        invariant
            text@ == value@,
            at <= text@.len(),
            out@ + escaped_from(value@, at as int) == escaped(value@),
        decreases text@.len() - at,
    {
        let ghost before = out@;
        let character = text[at];
        if character == '\0' {
            proof {
                reveal_strlit("\\00");
            }
            out.append("\\00");
        } else {
            if character == '"' || character == '+' || character == ',' || character == ';'
                || character == '<' || character == '>' || character == '\\' || character == '='
                || (character == '#' && at == 0) || (character == ' ' && (at == 0 || at
                == text.len() - 1)) {
                out.push('\\');
            }
            out.push(character);
        }
        assert(out@ =~= before + escaped_at(value@, at as int));
        assert(out@ + escaped_from(value@, at + 1) =~= before + escaped_from(value@, at as int));
        at = at + 1;
    }
    assert(out@ + escaped_from(value@, at as int) =~= out@);
    out
}

// How a DN is read.

/// Whether `character` ends a value inside a DN.
pub open spec fn is_separator(character: char) -> bool {
    character == ',' || character == '+' || character == ';'
}

/// The number a hexadecimal digit stands for, or -1 for another character.
pub open spec fn hex_value(character: char) -> int {
    let code = character as int;
    if 0x30 <= code <= 0x39 {
        code - 0x30
    } else if 0x41 <= code <= 0x46 {
        code - 0x41 + 10
    } else if 0x61 <= code <= 0x66 {
        code - 0x61 + 10
    } else {
        -1
    }
}

/// Whether two characters spell an octet in hexadecimal.
pub open spec fn is_octet(high: char, low: char) -> bool {
    hex_value(high) >= 0 && hex_value(low) >= 0
}

/// The value that `dn` begins with, in the octets of its UTF-8, and what
/// follows it. The value runs to the first separator that no backslash stands
/// before. A backslash and two hexadecimal digits stand for one octet, a
/// backslash and any other character for that character, and every character
/// else for itself, as does a backslash that nothing follows.
pub open spec fn value_read(dn: Seq<char>) -> (Seq<u8>, Seq<char>)
    decreases dn.len(),
{
    if dn.len() == 0 || is_separator(dn[0]) {
        (Seq::empty(), dn)
    } else if dn[0] == '\\' && dn.len() >= 3 && is_octet(dn[1], dn[2]) {
        let octet = (16 * hex_value(dn[1]) + hex_value(dn[2])) as u8;
        let (value, rest) = value_read(dn.skip(3));
        (seq![octet] + value, rest)
    } else if dn[0] == '\\' && dn.len() >= 2 {
        let (value, rest) = value_read(dn.skip(2));
        (vstd::utf8::encode_scalar(dn[1] as u32) + value, rest)
    } else {
        let (value, rest) = value_read(dn.skip(1));
        (vstd::utf8::encode_scalar(dn[0] as u32) + value, rest)
    }
}

/// Whether `text` is a `string` of RFC 4514 section 3's grammar, read from
/// its first character on or, where `leading` is false, from a later one:
/// what has a meaning inside a DN stands behind a backslash, and so do a
/// space or a number sign that leads and a space that trails.
pub open spec fn is_dn_string(text: Seq<char>, leading: bool) -> bool
    decreases text.len(),
{
    if text.len() == 0 {
        true
    } else if text[0] == '\\' {
        ||| {
            &&& text.len() >= 2
            &&& is_special(text[1]) || text[1] == ' ' || text[1] == '#'
            &&& is_dn_string(text.skip(2), false)
        }
        ||| {
            &&& text.len() >= 3
            &&& is_octet(text[1], text[2])
            &&& is_dn_string(text.skip(3), false)
        }
    } else {
        &&& text[0] == '=' || !is_special(text[0])
        &&& text[0] != '\0'
        &&& leading ==> text[0] != ' ' && text[0] != '#'
        &&& text.len() == 1 ==> text[0] != ' '
        &&& is_dn_string(text.skip(1), false)
    }
}

proof fn lemma_reads_back_from(value: Seq<char>, at: int, after: Seq<char>)
    requires
        0 <= at <= value.len(),
    ensures
        value_read(escaped_from(value, at) + after) == (
            vstd::utf8::encode_utf8(value.skip(at)) + value_read(after).0,
            value_read(after).1,
        ),
    decreases value.len() - at,
{
    let dn = escaped_from(value, at) + after;
    let octets = vstd::utf8::encode_utf8(value.skip(at));
    let further = value_read(after).0;
    if at == value.len() {
        assert(dn =~= after);
        assert(octets + further =~= further);
    } else {
        let here = escaped_at(value, at);
        let tail = escaped_from(value, at + 1) + after;
        lemma_reads_back_from(value, at + 1, after);
        assert(dn =~= here + tail);
        assert(dn.skip(here.len() as int) =~= tail);
        assert(forall|i: int| 0 <= i < here.len() ==> dn[i] == here[i]);
        let first = vstd::utf8::encode_scalar(value[at] as u32);
        let rest = vstd::utf8::encode_utf8(value.skip(at + 1));
        assert(value.skip(at).drop_first() =~= value.skip(at + 1));
        assert(octets =~= first + rest);
        assert(octets + further =~= first + (rest + further));
        assert((0u32 & 0x7f) as u8 == 0) by (bit_vector);
        assert(value[at] == '\0' ==> first =~= seq![0u8]);
    }
}

proof fn lemma_is_dn_string_from(value: Seq<char>, at: int)
    requires
        0 <= at <= value.len(),
    ensures
        is_dn_string(escaped_from(value, at), at == 0),
        at < value.len() ==> escaped_from(value, at).len() > 0,
    decreases value.len() - at,
{
    if at < value.len() {
        lemma_is_dn_string_from(value, at + 1);
        let here = escaped_at(value, at);
        let whole = escaped_from(value, at);
        assert(whole.skip(here.len() as int) =~= escaped_from(value, at + 1));
        assert(forall|i: int| 0 <= i < here.len() ==> whole[i] == here[i]);
    }
}

/// An escaped value is a `string` of RFC 4514's grammar, whatever it was.
pub proof fn lemma_escaped_is_a_dn_string(value: Seq<char>)
    ensures
        is_dn_string(escaped(value), true),
{
    lemma_is_dn_string_from(value, 0);
}

/// A name cannot reach outside its place in a DN: whatever follows it there,
/// an escaped value is read whole and as itself, and what follows is read as it
/// is read alone. Where that is the end of the DN or a separator, the value
/// ends with the name.
pub proof fn lemma_escaped_stays_in_its_place(value: Seq<char>, after: Seq<char>)
    ensures
        value_read(escaped(value) + after) == (
            vstd::utf8::encode_utf8(value) + value_read(after).0,
            value_read(after).1,
        ),
        after.len() == 0 || is_separator(after[0]) ==> value_read(escaped(value) + after) == (
            vstd::utf8::encode_utf8(value),
            after,
        ),
{
    lemma_reads_back_from(value, 0, after);
    assert(value.skip(0) =~= value);
    let octets = vstd::utf8::encode_utf8(value);
    assert(octets + Seq::<u8>::empty() =~= octets);
}

/// Different values stay different when they are escaped.
pub proof fn lemma_escaped_keeps_values_apart(left: Seq<char>, right: Seq<char>)
    requires
        escaped(left) == escaped(right),
    ensures
        left == right,
{
    lemma_escaped_stays_in_its_place(left, Seq::empty());
    lemma_escaped_stays_in_its_place(right, Seq::empty());
    vstd::utf8::encode_utf8_decode_utf8(left);
    vstd::utf8::encode_utf8_decode_utf8(right);
}

/// Whether a character has to be escaped inside a DN by a backslash before it:
/// one of eight anywhere, a number sign that leads, a space that leads or
/// trails.
pub open spec fn takes_a_backslash(character: char, leads: bool, trails: bool) -> bool {
    ||| "\"+,;<>\\="@.contains(character)
    ||| leads && (character == '#' || character == ' ')
    ||| trails && character == ' '
}

/// Whether `pieces` are what the characters of `value` become inside a DN, one
/// after another: a NUL its hexadecimal pair, what has to be escaped itself
/// behind a backslash, and everything else itself.
pub open spec fn are_pieces(pieces: Seq<Seq<char>>, value: Seq<char>) -> bool {
    &&& pieces.len() == value.len()
    &&& forall|at: int|
        0 <= at < value.len() ==> #[trigger] pieces[at] == (if value[at] == '\0' {
            "\\00"@
        } else if takes_a_backslash(value[at], at == 0, at == value.len() - 1) {
            seq!['\\', value[at]]
        } else {
            seq![value[at]]
        })
}

proof fn lemma_what_takes_a_backslash(character: char)
    ensures
        "\"+,;<>\\="@.contains(character) == is_special(character),
{
    reveal_strlit("\"+,;<>\\=");
    let specials = "\"+,;<>\\="@;
    assert(specials[0] == '"' && specials[1] == '+' && specials[2] == ',' && specials[3] == ';'
        && specials[4] == '<' && specials[5] == '>' && specials[6] == '\\' && specials[7] == '=');
}

proof fn lemma_pieces_from(pieces: Seq<Seq<char>>, value: Seq<char>, at: int)
    requires
        are_pieces(pieces, value),
        0 <= at <= value.len(),
    ensures
        pieces.skip(at).flatten() == escaped_from(value, at),
    decreases value.len() - at,
{
    if at < value.len() {
        lemma_pieces_from(pieces, value, at + 1);
        lemma_what_takes_a_backslash(value[at]);
        reveal_strlit("\\00");
        assert(pieces.skip(at).first() == pieces[at]);
        assert(pieces.skip(at).drop_first() =~= pieces.skip(at + 1));
        assert(pieces[at] =~= escaped_at(value, at));
    }
}

/// Escaping is character by character, in order: nothing is dropped or added,
/// what has to be escaped is, and nothing else is.
pub proof fn lemma_each_character_is_escaped_as_it_has_to_be(
    value: Seq<char>,
    pieces: Seq<Seq<char>>,
)
    requires
        are_pieces(pieces, value),
    ensures
        escaped(value) == pieces.flatten(),
{
    lemma_pieces_from(pieces, value, 0);
    assert(pieces.skip(0) =~= pieces);
}

} // verus!
