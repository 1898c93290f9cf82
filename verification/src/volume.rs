//! Drives and shares: what stands in front of a Windows path's own root.
//!
//! Paths are slash-separated here, as everywhere in the library.
use vstd::prelude::*;
use vstd::slice::slice_subrange;

use crate::absolute::{has_verbatim_prefix, has_verbatim_share};
use crate::bytes::{
    alphabetic, append, index_from, is_alphabetic, lemma_index_from, lower, lowered, position_from,
    COLON, DOT, QUESTION, SLASH,
};
use crate::literal::{contents, Syntax};

verus! {

/// Whether a path starts with a drive letter and a colon.
pub open spec fn names_a_drive(path: Seq<u8>) -> bool {
    path.len() >= 2 && is_alphabetic(path[0]) && path[1] == COLON
}

/// Where the name of the host starts in a path that names a share.
pub open spec fn host_start(path: Seq<u8>) -> int {
    if has_verbatim_prefix(path) && has_verbatim_share(path) {
        8
    } else {
        2
    }
}

/// Whether a path starts as one that names a share does.
pub open spec fn names_a_share(path: Seq<u8>) -> bool {
    path.len() >= 2 && path[0] == SLASH && path[1] == SLASH
}

/// How many bytes of a path name its drive or share, where they can.
pub open spec fn volume_length(path: Seq<u8>, syntax: Syntax) -> int {
    if syntax != Syntax::Windows {
        0
    } else if names_a_drive(path) {
        2
    } else if names_a_share(path) {
        let end = index_from(path, SLASH, host_start(path));
        if end < path.len() {
            index_from(path, SLASH, end + 1)
        } else {
            path.len() as int
        }
    } else {
        0
    }
}

/// Whether a path is a drive and nothing else: what is pushed onto it goes on
/// from the drive's own directory, and no separator goes in between.
pub open spec fn is_bare_drive(path: Seq<u8>, syntax: Syntax) -> bool {
    syntax == Syntax::Windows && path.len() == 2 && names_a_drive(path)
}

/// What a drive or share sorts by comes before everything else of a path.
pub const RANK_VOLUME: u8 = 0;

/// Ranks of the kinds of drives and shares, in the order they sort.
pub const RANK_VERBATIM: u8 = 0;

pub const RANK_VERBATIM_SHARE: u8 = 1;

pub const RANK_VERBATIM_DRIVE: u8 = 2;

pub const RANK_DEVICE: u8 = 3;

pub const RANK_SHARE: u8 = 4;

pub const RANK_DRIVE: u8 = 5;

/// What a drive or share sorts by: its kind, and then its names. The case of a
/// drive's letter does not count.
pub open spec fn volume_key(path: Seq<u8>, syntax: Syntax) -> Seq<Seq<u8>> {
    if volume_length(path, syntax) == 0 {
        Seq::empty()
    } else if names_a_drive(path) {
        seq![seq![RANK_VOLUME, RANK_DRIVE, lowered(path[0])]]
    } else {
        let end = index_from(path, SLASH, host_start(path));
        let host = path.subrange(host_start(path), end);
        let share = if end < path.len() {
            path.subrange(end + 1, volume_length(path, syntax))
        } else {
            Seq::empty()
        };
        if host_start(path) == 8 {
            seq![seq![RANK_VOLUME, RANK_VERBATIM_SHARE] + host, seq![RANK_VOLUME] + share]
        } else if host == seq![QUESTION] {
            if share.len() == 2 && names_a_drive(share) {
                seq![seq![RANK_VOLUME, RANK_VERBATIM_DRIVE, lowered(share[0])]]
            } else {
                seq![seq![RANK_VOLUME, RANK_VERBATIM] + share]
            }
        } else if host == seq![DOT] {
            seq![seq![RANK_VOLUME, RANK_DEVICE] + share]
        } else {
            seq![seq![RANK_VOLUME, RANK_SHARE] + host, seq![RANK_VOLUME] + share]
        }
    }
}

/// A volume lies in its path.
pub proof fn lemma_volume_length(path: Seq<u8>, syntax: Syntax)
    ensures
        0 <= volume_length(path, syntax) <= path.len(),
        volume_length(path, syntax) > 0 && !names_a_drive(path) ==> host_start(path) <= index_from(
            path,
            SLASH,
            host_start(path),
        ) <= path.len(),
        volume_length(path, syntax) > 0 && !names_a_drive(path) && index_from(
            path,
            SLASH,
            host_start(path),
        ) < path.len() ==> index_from(path, SLASH, host_start(path)) + 1 <= volume_length(
            path,
            syntax,
        ),
{
    if syntax == Syntax::Windows && names_a_share(path) {
        lemma_index_from(path, SLASH, host_start(path));
        let end = index_from(path, SLASH, host_start(path));
        if end < path.len() {
            lemma_index_from(path, SLASH, end + 1);
        }
    }
}

/// Where the name of the host starts.
fn find_host(path: &[u8]) -> (result: usize)
    requires
        names_a_share(path@),
    ensures
        result == host_start(path@),
        result <= path@.len(),
{
    let shared = path.len() >= 8 && path[2] == QUESTION && path[3] == SLASH && lower(path[4]) == 0x75
        && lower(path[5]) == 0x6e && lower(path[6]) == 0x63 && path[7] == SLASH;
    if shared {
        8
    } else {
        2
    }
}

/// How many bytes of a path name its drive or share.
pub fn volume_of(path: &[u8], syntax: Syntax) -> (result: usize)
    ensures
        result == volume_length(path@, syntax),
        result <= path@.len(),
{
    if syntax != Syntax::Windows {
        return 0;
    }
    if path.len() >= 2 && alphabetic(path[0]) && path[1] == COLON {
        return 2;
    }
    if path.len() < 2 || path[0] != SLASH || path[1] != SLASH {
        return 0;
    }
    let end = position_from(path, SLASH, find_host(path));
    if end < path.len() {
        position_from(path, SLASH, end + 1)
    } else {
        path.len()
    }
}

/// Whether a path is a drive and nothing else.
pub fn bare_drive(path: &[u8], syntax: Syntax) -> (result: bool)
    ensures
        result == is_bare_drive(path@, syntax),
{
    syntax == Syntax::Windows && path.len() == 2 && alphabetic(path[0]) && path[1] == COLON
}

/// A key of these leading bytes and then those.
fn key_part(first: u8, second: Option<u8>, rest: &[u8]) -> (result: Vec<u8>)
    ensures
        result@ == (match second {
            Some(second) => seq![first, second],
            None => seq![first],
        }) + rest@,
{
    let mut part: Vec<u8> = Vec::new();
    part.push(first);
    if let Some(second) = second {
        part.push(second);
    }
    append(&mut part, rest);
    assert(part@ =~= (match second {
        Some(second) => seq![first, second],
        None => seq![first],
    }) + rest@);
    part
}

/// What a path's drive or share sorts by.
pub(crate) fn volume_key_of(path: &[u8], syntax: Syntax) -> (result: Vec<Vec<u8>>)
    ensures
        contents(result@) == volume_key(path@, syntax),
{
    let mut key: Vec<Vec<u8>> = Vec::new();
    let length = volume_of(path, syntax);
    proof {
        lemma_volume_length(path@, syntax);
    }
    if length == 0 {
        assert(contents(key@) =~= Seq::<Seq<u8>>::empty());
        return key;
    }
    if path.len() >= 2 && alphabetic(path[0]) && path[1] == COLON {
        let mut part: Vec<u8> = Vec::new();
        part.push(RANK_VOLUME);
        part.push(RANK_DRIVE);
        part.push(lower(path[0]));
        assert(part@ =~= seq![RANK_VOLUME, RANK_DRIVE, lowered(path@[0])]);
        key.push(part);
        assert(contents(key@) =~= volume_key(path@, syntax));
        return key;
    }
    let start = find_host(path);
    let end = position_from(path, SLASH, start);
    let host = slice_subrange(path, start, end);
    let share = if end < path.len() {
        slice_subrange(path, end + 1, length)
    } else {
        slice_subrange(path, end, end)
    };
    assert(end >= path@.len() ==> share@ =~= Seq::<u8>::empty());
    assert(host@.len() == 1 && host@[0] == QUESTION ==> host@ =~= seq![QUESTION]);
    assert(host@.len() == 1 && host@[0] == DOT ==> host@ =~= seq![DOT]);
    if start == 8 {
        key.push(key_part(RANK_VOLUME, Some(RANK_VERBATIM_SHARE), host));
        key.push(key_part(RANK_VOLUME, None, share));
    } else if host.len() == 1 && host[0] == QUESTION {
        if share.len() == 2 && alphabetic(share[0]) && share[1] == COLON {
            let mut part: Vec<u8> = Vec::new();
            part.push(RANK_VOLUME);
            part.push(RANK_VERBATIM_DRIVE);
            part.push(lower(share[0]));
            assert(part@ =~= seq![RANK_VOLUME, RANK_VERBATIM_DRIVE, lowered(share@[0])]);
            key.push(part);
        } else {
            key.push(key_part(RANK_VOLUME, Some(RANK_VERBATIM), share));
        }
    } else if host.len() == 1 && host[0] == DOT {
        key.push(key_part(RANK_VOLUME, Some(RANK_DEVICE), share));
    } else {
        key.push(key_part(RANK_VOLUME, Some(RANK_SHARE), host));
        key.push(key_part(RANK_VOLUME, None, share));
    }
    assert(contents(key@) =~= volume_key(path@, syntax));
    key
}

} // verus!
