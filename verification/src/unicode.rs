//! Adapting candidate names to the composed form a repository asks for.
use vstd::prelude::*;
use vstd::slice::slice_subrange;
use vstd::utf8::{decode_utf8, encode_utf8, valid_utf8};

use unicode_normalization::UnicodeNormalization;

use crate::bytes::{
    append, index_from, lemma_index_from, lemma_index_from_is, position_from, SLASH,
};

verus! {

/// The canonical composition of a text, as `unicode_normalization` computes
/// it.
pub uninterp spec fn composed(text: Seq<char>) -> Seq<char>;

/// The text that `bytes` encodes.
///
/// Calls `std::str::from_utf8`. Claimed of it: there is a text exactly where
/// the bytes are valid UTF-8, and it is the one they encode.
#[verifier::external_body]
pub(crate) fn text_of(bytes: &[u8]) -> (result: Option<&str>)
    ensures
        result is Some <==> valid_utf8(bytes@),
        match result {
            Some(text) => text@ == decode_utf8(bytes@),
            None => true,
        },
{
    std::str::from_utf8(bytes).ok()
}

/// Composes a text.
///
/// Calls `UnicodeNormalization::nfc` of `unicode_normalization`. Claimed of
/// it: the characters it yields are a function of the text.
#[verifier::external_body]
fn compose(text: &str) -> (result: String)
    ensures
        result@ == composed(text@),
{
    text.nfc().collect::<String>()
}

/// A component with its text composed, where it is valid UTF-8.
pub open spec fn composed_component(component: Seq<u8>) -> Seq<u8> {
    if valid_utf8(component) {
        encode_utf8(composed(decode_utf8(component)))
    } else {
        component
    }
}

/// `path` from `from` on with every component composed. Each component is
/// independent, so an invalid one keeps no sibling from being composed.
pub open spec fn composed_path(path: Seq<u8>, from: int) -> Seq<u8>
    decreases path.len() - from,
    when 0 <= from <= path.len()
    via composed_path_decreases
{
    let at = index_from(path, SLASH, from);
    if at < path.len() {
        composed_component(path.subrange(from, at)).push(SLASH) + composed_path(path, at + 1)
    } else {
        composed_component(path.subrange(from, path.len() as int))
    }
}

#[via_fn]
proof fn composed_path_decreases(path: Seq<u8>, from: int) {
    lemma_index_from(path, SLASH, from);
}

fn append_composed(bytes: &mut Vec<u8>, component: &[u8])
    ensures
        final(bytes)@ == old(bytes)@ + composed_component(component@),
{
    match text_of(component) {
        Some(text) => {
            let composed_text = compose(text);
            append(bytes, composed_text.as_str().as_bytes());
        },
        None => {
            append(bytes, component);
        },
    }
}

/// Adapts the candidate that one ignore file sees, not its pattern.
pub fn normalize_candidate(candidate: &[u8]) -> (result: Vec<u8>)
    ensures
        result@ == composed_path(candidate@, 0),
{
    let mut bytes: Vec<u8> = Vec::new();
    let mut start: usize = 0;
    assert(bytes@ + composed_path(candidate@, 0) =~= composed_path(candidate@, 0));
    loop
        invariant
            start <= candidate@.len(),
            bytes@ + composed_path(candidate@, start as int) == composed_path(candidate@, 0),
        decreases candidate@.len() - start,
    {
        let at = position_from(candidate, SLASH, start);
        let ghost before = bytes@;
        append_composed(&mut bytes, slice_subrange(candidate, start, at));
        if at >= candidate.len() {
            return bytes;
        }
        bytes.push(SLASH);
        proof {
            let head = composed_component(candidate@.subrange(start as int, at as int));
            assert(before + (head.push(SLASH) + composed_path(candidate@, at + 1)) =~= bytes@
                + composed_path(candidate@, at + 1));
        }
        start = at + 1;
    }
}

proof fn lemma_composed_behind(front: Seq<u8>, path: Seq<u8>, from: int)
    requires
        0 <= from <= path.len(),
    ensures
        composed_path(front + path, front.len() + from) == composed_path(path, from),
    decreases path.len() - from,
{
    let whole = front + path;
    lemma_index_from(path, SLASH, from);
    let at = index_from(path, SLASH, from);
    lemma_index_from_is(whole, SLASH, front.len() + from, front.len() + at);
    assert(whole.subrange(front.len() + from, front.len() + at) =~= path.subrange(from, at));
    if at < path.len() {
        lemma_composed_behind(front, path, at + 1);
    }
}

/// Names are composed one by one: each name of a path is composed by itself,
/// and the separators stay where they are.
pub proof fn law_names_are_composed_one_by_one(name: Seq<u8>, rest: Seq<u8>)
    requires
        !name.contains(SLASH),
    ensures
        composed_path(name, 0) == composed_component(name),
        composed_path(name.push(SLASH) + rest, 0) == composed_component(name).push(SLASH)
            + composed_path(rest, 0),
        !valid_utf8(name) ==> composed_path(name, 0) == name,
{
    let len = name.len() as int;
    assert forall|i: int| 0 <= i < len implies name[i] != SLASH by {
        assert(name.contains(name[i]));
    }
    lemma_index_from_is(name, SLASH, 0, len);
    assert(name.subrange(0, len) =~= name);
    let front = name.push(SLASH);
    let whole = front + rest;
    assert(whole[len] == SLASH);
    lemma_index_from_is(whole, SLASH, 0, len);
    assert(whole.subrange(0, len) =~= name);
    lemma_composed_behind(front, rest, 0);
}

} // verus!
