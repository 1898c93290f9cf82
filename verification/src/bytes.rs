//! Byte strings: the constants, searches and comparisons the other modules share.
//!
//! Paths and patterns are raw bytes everywhere in this library, so what would
//! be string handling elsewhere is byte handling here. The mathematical model
//! of a byte string is `Seq<u8>`.
use vstd::prelude::*;

verus! {

/// `\0`
pub const NUL: u8 = 0x00;

/// `\t`
pub const TAB: u8 = 0x09;

/// `\n`
pub const NEWLINE: u8 = 0x0a;

/// `\x0c`
pub const FORM_FEED: u8 = 0x0c;

/// `\r`
pub const RETURN: u8 = 0x0d;

/// A space.
pub const SPACE: u8 = 0x20;

/// `!`
pub const BANG: u8 = 0x21;

/// `"`
pub const QUOTE: u8 = 0x22;

/// `#`
pub const HASH: u8 = 0x23;

/// `(`
pub const PAREN_OPEN: u8 = 0x28;

/// `)`
pub const PAREN_CLOSE: u8 = 0x29;

/// `*`
pub const STAR: u8 = 0x2a;

/// `+`
pub const PLUS: u8 = 0x2b;

/// `-`
pub const MINUS: u8 = 0x2d;

/// `.`
pub const DOT: u8 = 0x2e;

/// `/`, the separator of paths and patterns.
pub const SLASH: u8 = 0x2f;

/// `0`
pub const ZERO: u8 = 0x30;

/// `9`
pub const NINE: u8 = 0x39;

/// `:`
pub const COLON: u8 = 0x3a;

/// `;`
pub const SEMICOLON: u8 = 0x3b;

/// `<`
pub const LESS: u8 = 0x3c;

/// `=`
pub const EQUALS: u8 = 0x3d;

/// `>`
pub const GREATER: u8 = 0x3e;

/// `?`
pub const QUESTION: u8 = 0x3f;

/// `@`
pub const AT: u8 = 0x40;

/// `[`
pub const BRACKET_OPEN: u8 = 0x5b;

/// `\`
pub const BACKSLASH: u8 = 0x5c;

/// `]`
pub const BRACKET_CLOSE: u8 = 0x5d;

/// `^`
pub const CARET: u8 = 0x5e;

/// `{`
pub const BRACE_OPEN: u8 = 0x7b;

/// `|`
pub const PIPE: u8 = 0x7c;

/// `}`
pub const BRACE_CLOSE: u8 = 0x7d;

/// Whether `byte` is an ASCII letter.
pub open spec fn is_alphabetic(byte: u8) -> bool {
    0x41 <= byte <= 0x5a || 0x61 <= byte <= 0x7a
}

/// Whether `byte` is an ASCII digit.
pub open spec fn is_digit(byte: u8) -> bool {
    ZERO <= byte <= NINE
}

/// Whether `byte` is ASCII whitespace.
pub open spec fn is_whitespace(byte: u8) -> bool {
    byte == SPACE || byte == TAB || byte == NEWLINE || byte == FORM_FEED || byte == RETURN
}

/// `byte` with an ASCII capital turned into its small letter.
pub open spec fn lowered(byte: u8) -> u8 {
    if 0x41 <= byte <= 0x5a {
        (byte + 32) as u8
    } else {
        byte
    }
}

/// Every byte of `bytes` lowered.
pub open spec fn all_lowered(bytes: Seq<u8>) -> Seq<u8> {
    Seq::new(bytes.len(), |i: int| lowered(bytes[i]))
}

/// The first position at or after `from` that holds `byte`, or the length.
pub open spec fn index_from(bytes: Seq<u8>, byte: u8, from: int) -> int
    decreases bytes.len() - from,
{
    if from >= bytes.len() {
        bytes.len() as int
    } else if bytes[from] == byte {
        from
    } else {
        index_from(bytes, byte, from + 1)
    }
}

/// The last position before `until` that holds `byte`, if there is one.
pub open spec fn last_index_before(bytes: Seq<u8>, byte: u8, until: int) -> Option<int>
    decreases until,
{
    if until <= 0 {
        None
    } else if bytes[until - 1] == byte {
        Some(until - 1)
    } else {
        last_index_before(bytes, byte, until - 1)
    }
}

/// The parts of `bytes` between the occurrences of `byte`; one part where
/// there is no occurrence.
pub open spec fn split_on(bytes: Seq<u8>, byte: u8) -> Seq<Seq<u8>>
    decreases bytes.len(),
{
    let at = index_from(bytes, byte, 0);
    if at >= bytes.len() || at < 0 {
        seq![bytes]
    } else {
        seq![bytes.take(at)] + split_on(bytes.skip(at + 1), byte)
    }
}

/// Whether `bytes` begins with `prefix`.
pub open spec fn begins_with(bytes: Seq<u8>, prefix: Seq<u8>) -> bool {
    prefix.len() <= bytes.len() && bytes.take(prefix.len() as int) == prefix
}

/// What [`index_from`] gives, in the form most proofs want: everything between
/// `from` and the result is another byte.
pub proof fn lemma_index_from(bytes: Seq<u8>, byte: u8, from: int)
    requires
        0 <= from <= bytes.len(),
    ensures
        from <= index_from(bytes, byte, from) <= bytes.len(),
        index_from(bytes, byte, from) < bytes.len() ==> bytes[index_from(bytes, byte, from)]
            == byte,
        forall|i: int| from <= i < index_from(bytes, byte, from) ==> bytes[i] != byte,
    decreases bytes.len() - from,
{
    if from < bytes.len() && bytes[from] != byte {
        lemma_index_from(bytes, byte, from + 1);
    }
}

/// A position that holds `byte` with no earlier occurrence after `from` is the
/// one [`index_from`] names.
pub proof fn lemma_index_from_is(bytes: Seq<u8>, byte: u8, from: int, at: int)
    requires
        0 <= from <= at <= bytes.len(),
        at < bytes.len() ==> bytes[at] == byte,
        forall|i: int| from <= i < at ==> bytes[i] != byte,
    ensures
        index_from(bytes, byte, from) == at,
    decreases at - from,
{
    if from < at {
        lemma_index_from_is(bytes, byte, from + 1, at);
    }
}

/// What [`last_index_before`] gives.
pub proof fn lemma_last_index_before(bytes: Seq<u8>, byte: u8, until: int)
    requires
        0 <= until <= bytes.len(),
    ensures
        match last_index_before(bytes, byte, until) {
            Some(at) => 0 <= at < until && bytes[at] == byte && forall|i: int|
                at < i < until ==> bytes[i] != byte,
            None => forall|i: int| 0 <= i < until ==> bytes[i] != byte,
        },
    decreases until,
{
    if until > 0 && bytes[until - 1] != byte {
        lemma_last_index_before(bytes, byte, until - 1);
    }
}

/// Lowers an ASCII capital.
pub fn lower(byte: u8) -> (result: u8)
    ensures
        result == lowered(byte),
{
    if 0x41 <= byte && byte <= 0x5a {
        byte + 32
    } else {
        byte
    }
}

/// Whether `byte` is an ASCII letter.
pub fn alphabetic(byte: u8) -> (result: bool)
    ensures
        result == is_alphabetic(byte),
{
    (0x41 <= byte && byte <= 0x5a) || (0x61 <= byte && byte <= 0x7a)
}

/// Whether `byte` is an ASCII digit.
pub fn digit(byte: u8) -> (result: bool)
    ensures
        result == is_digit(byte),
{
    ZERO <= byte && byte <= NINE
}

/// Whether `byte` is ASCII whitespace.
pub fn whitespace(byte: u8) -> (result: bool)
    ensures
        result == is_whitespace(byte),
{
    byte == SPACE || byte == TAB || byte == NEWLINE || byte == FORM_FEED || byte == RETURN
}

/// Whether two byte strings are equal.
pub fn same(left: &[u8], right: &[u8]) -> (result: bool)
    ensures
        result == (left@ == right@),
{
    if left.len() != right.len() {
        return false;
    }
    let mut i: usize = 0;
    while i < left.len()
        invariant
            i <= left.len(),
            left.len() == right.len(),
            forall|j: int| 0 <= j < i ==> left@[j] == right@[j],
        decreases left.len() - i,
    {
        if left[i] != right[i] {
            return false;
        }
        i += 1;
    }
    assert(left@ =~= right@);
    true
}

/// Whether two byte strings are equal but for the case of ASCII letters.
pub fn same_ignoring_case(left: &[u8], right: &[u8]) -> (result: bool)
    ensures
        result == (all_lowered(left@) == all_lowered(right@)),
{
    if left.len() != right.len() {
        assert(all_lowered(left@).len() != all_lowered(right@).len());
        return false;
    }
    let mut i: usize = 0;
    while i < left.len()
        invariant
            i <= left.len(),
            left.len() == right.len(),
            forall|j: int| 0 <= j < i ==> lowered(left@[j]) == lowered(right@[j]),
        decreases left.len() - i,
    {
        if lower(left[i]) != lower(right[i]) {
            assert(all_lowered(left@)[i as int] != all_lowered(right@)[i as int]);
            return false;
        }
        i += 1;
    }
    assert(all_lowered(left@) =~= all_lowered(right@));
    true
}

/// Whether `bytes` begins with `prefix`.
pub fn starts_with(bytes: &[u8], prefix: &[u8]) -> (result: bool)
    ensures
        result == begins_with(bytes@, prefix@),
{
    if prefix.len() > bytes.len() {
        return false;
    }
    let mut i: usize = 0;
    while i < prefix.len()
        invariant
            i <= prefix.len() <= bytes.len(),
            forall|j: int| 0 <= j < i ==> bytes@[j] == prefix@[j],
        decreases prefix.len() - i,
    {
        if bytes[i] != prefix[i] {
            assert(bytes@.take(prefix@.len() as int)[i as int] != prefix@[i as int]);
            return false;
        }
        i += 1;
    }
    assert(bytes@.take(prefix@.len() as int) =~= prefix@);
    true
}

/// The first position at or after `from` that holds `byte`, or the length.
pub fn position_from(bytes: &[u8], byte: u8, from: usize) -> (result: usize)
    requires
        from <= bytes@.len(),
    ensures
        result == index_from(bytes@, byte, from as int),
        from <= result <= bytes@.len(),
        result < bytes@.len() ==> bytes@[result as int] == byte,
        forall|i: int| from <= i < result ==> bytes@[i] != byte,
{
    let mut i: usize = from;
    while i < bytes.len() && bytes[i] != byte
        invariant
            from <= i <= bytes.len(),
            index_from(bytes@, byte, from as int) == index_from(bytes@, byte, i as int),
            forall|j: int| from <= j < i ==> bytes@[j] != byte,
        decreases bytes.len() - i,
    {
        i += 1;
    }
    i
}

/// The last position before `until` that holds `byte`.
pub fn last_position_before(bytes: &[u8], byte: u8, until: usize) -> (result: Option<usize>)
    requires
        until <= bytes@.len(),
    ensures
        match result {
            Some(at) => last_index_before(bytes@, byte, until as int) == Some(at as int) && at
                < until && bytes@[at as int] == byte,
            None => last_index_before(bytes@, byte, until as int) is None,
        },
{
    let mut i: usize = until;
    while i > 0
        invariant
            i <= until <= bytes.len(),
            last_index_before(bytes@, byte, until as int) == last_index_before(
                bytes@,
                byte,
                i as int,
            ),
        decreases i,
    {
        if bytes[i - 1] == byte {
            return Some(i - 1);
        }
        i -= 1;
    }
    None
}

/// Appends `tail` to `bytes`.
pub fn append(bytes: &mut Vec<u8>, tail: &[u8])
    ensures
        final(bytes)@ == old(bytes)@ + tail@,
{
    let mut i: usize = 0;
    while i < tail.len()
        invariant
            i <= tail.len(),
            bytes@ == old(bytes)@ + tail@.take(i as int),
        decreases tail.len() - i,
    {
        bytes.push(tail[i]);
        i += 1;
        assert(tail@.take(i as int) =~= tail@.take(i - 1).push(tail@[i - 1]));
    }
    assert(tail@.take(tail@.len() as int) =~= tail@);
}

} // verus!
