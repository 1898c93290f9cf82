//! Rewriting absolute include and exclude patterns into root-relative ones.
//!
//! The walker matches root-relative bytes, while callers routinely hold
//! absolute patterns: a build tool that knows a project lives at `/repo`
//! writes `/repo/src/**/*.ts`. The prefix arithmetic that relates the two
//! stands here once.
//!
//! The rewrite is purely lexical. No symlink or `..` is resolved behind the
//! caller's back, which is why a `..` in either the pattern or the root is
//! refused instead of being folded away.
//!
//! A walk root whose own name contains a metacharacter cannot be spelled
//! literally in front of a pattern. Such a root is reported as unrewritable
//! rather than guessed at.
use vstd::prelude::*;
use vstd::slice::{slice_subrange, slice_to_vec};

use crate::bytes::{
    all_lowered, alphabetic, append, index_from, is_alphabetic, lemma_index_from,
    lemma_index_from_is, lower, lowered, position_from, same, same_ignoring_case, AT, BACKSLASH,
    BANG, BRACE_OPEN, BRACKET_OPEN, COLON, DOT, GREATER, LESS, PAREN_OPEN, PIPE, PLUS, QUESTION,
    QUOTE, SLASH, STAR,
};
use crate::literal::{first_metacharacter, is_metacharacter_at, metacharacter_from, Syntax};
use crate::pattern_error::{PatternError, Refusal};

verus! {

/// What an absolute pattern turned into for one walk root.
#[derive(Debug, PartialEq, Eq)]
pub enum Rewrite {
    /// The pattern was not absolute. It is already in the walker's dialect and
    /// is used unchanged.
    Relative,
    /// The pattern was absolute and named paths inside the root. `bytes` is the
    /// equivalent root-relative pattern, and `source_start` the offset in the
    /// caller's pattern at which those bytes stand.
    Rooted { bytes: Vec<u8>, source_start: usize },
    /// The pattern was absolute and named paths outside the root, so no entry
    /// this walk can produce will match it. This is a verdict, not a failure.
    Outside,
}

/// The model of what rewriting comes to.
pub ghost enum Rewritten {
    Relative,
    Rooted { bytes: Seq<u8>, source_start: int },
    Outside,
    Refused(Refusal),
}

/// An absolute pattern met a relative root.
pub const NEEDS_ABSOLUTE_ROOT: &'static str = "an absolute pattern needs an absolute walk root";

/// The pattern holds a `..` component.
pub const UNRESOLVED_PARENT: &'static str =
    "`..` in an absolute pattern is not resolved, because resolving it lexically would be wrong across a symlink";

/// The root holds a `..` component.
pub const ROOT_HAS_PARENT: &'static str =
    "an absolute pattern needs a walk root without a `..` component";

/// A metacharacter stands where the root's own components are.
pub const WILDCARD_ABOVE_ROOT: &'static str =
    "a wildcard at or above the walk root cannot be made relative to it";

/// The pattern names the root and nothing inside it.
pub const NAMES_THE_ROOT: &'static str =
    "an absolute pattern that names the walk root itself selects nothing; add `/**` to select what is inside it";

/// The one message for a pattern that was written as a Windows path.
pub const PATH_SHAPED: &'static str =
    "this looks like a Windows path rather than a pattern; write patterns with `/` separators, because `\\` is the escape character on every platform";

/// Whether Windows forbids `byte` in a file or directory name. `/` is left out
/// because it is the separator the pattern dialect uses.
pub open spec fn forbidden_in_a_windows_name(byte: u8) -> bool {
    byte == BACKSLASH || byte == COLON || byte == STAR || byte == QUESTION || byte == QUOTE || byte
        == LESS || byte == GREATER || byte == PIPE
}

/// Whether the unescaped byte at `at` could begin a class, an alternation or
/// an extended-glob group.
pub open spec fn group_opens_at(pattern: Seq<u8>, at: int) -> bool {
    let byte = pattern[at];
    ||| byte == BRACKET_OPEN || byte == BRACE_OPEN
    ||| (byte == AT || byte == PLUS || byte == BANG || byte == STAR || byte == QUESTION) && at + 1
        < pattern.len() && pattern[at + 1] == PAREN_OPEN
}

/// Whether the colon at `at` is the one of an absolute `C:/` spelling.
pub open spec fn colon_of_a_drive(pattern: Seq<u8>, at: int) -> bool {
    at == 1 && is_alphabetic(pattern[0]) && pattern.len() > 2 && pattern[2] == SLASH
}

/// The first byte at or after `from`, in the plain text ahead of the first
/// group, that asks for a byte no Windows name can hold: a backslash that
/// escapes a forbidden byte, or a bare colon that is not a drive's.
pub open spec fn path_shaped_from(pattern: Seq<u8>, from: int) -> Option<int>
    decreases pattern.len() - from,
{
    if from >= pattern.len() {
        None
    } else if pattern[from] == BACKSLASH {
        if from + 1 >= pattern.len() {
            None
        } else if forbidden_in_a_windows_name(pattern[from + 1]) {
            Some(from)
        } else {
            path_shaped_from(pattern, from + 2)
        }
    } else if pattern[from] == COLON && !colon_of_a_drive(pattern, from) {
        Some(from)
    } else if group_opens_at(pattern, from) {
        None
    } else {
        path_shaped_from(pattern, from + 1)
    }
}

/// Whether the pattern opens with a drive prefix spelled with a backslash.
pub open spec fn opens_with_drive_backslash(pattern: Seq<u8>) -> bool {
    pattern.len() >= 3 && is_alphabetic(pattern[0]) && pattern[1] == COLON && pattern[2]
        == BACKSLASH
}

/// Where a pattern that only a path could have been meant by gives itself
/// away. Only Windows patterns can.
pub open spec fn path_shape(pattern: Seq<u8>, syntax: Syntax) -> Option<int> {
    if syntax != Syntax::Windows {
        None
    } else if opens_with_drive_backslash(pattern) {
        Some(0)
    } else {
        path_shaped_from(pattern, 0)
    }
}

/// How many bytes longer the caller's spelling is than the ordinary one.
pub open spec fn verbatim_shift(bytes: Seq<u8>, syntax: Syntax) -> int {
    if syntax != Syntax::Windows || !has_verbatim_prefix(bytes) {
        0
    } else if has_verbatim_share(bytes) {
        6
    } else {
        4
    }
}

/// Whether `bytes` begins with the verbatim namespace `//?/`.
pub open spec fn has_verbatim_prefix(bytes: Seq<u8>) -> bool {
    bytes.len() >= 4 && bytes[0] == SLASH && bytes[1] == SLASH && bytes[2] == QUESTION && bytes[3]
        == SLASH
}

/// Whether the verbatim namespace of `bytes` goes on with `UNC/`.
pub open spec fn has_verbatim_share(bytes: Seq<u8>) -> bool {
    bytes.len() >= 8 && lowered(bytes[4]) == 0x75 && lowered(bytes[5]) == 0x6e && lowered(bytes[6])
        == 0x63 && bytes[7] == SLASH
}

/// `bytes` without Windows' verbatim namespace: `//?/C:/x` is `C:/x`, and
/// `//?/UNC/host/share` is `//host/share`.
pub open spec fn ordinary_spelling(bytes: Seq<u8>, syntax: Syntax) -> Seq<u8> {
    if syntax != Syntax::Windows || !has_verbatim_prefix(bytes) {
        bytes
    } else if has_verbatim_share(bytes) {
        seq![SLASH, SLASH] + bytes.skip(8)
    } else {
        bytes.skip(4)
    }
}

/// Length of the prefix that makes `bytes` absolute, if it is.
///
/// On Windows a single leading separator is relative to the current drive, so
/// it is deliberately not enough.
pub open spec fn absolute_length(bytes: Seq<u8>, syntax: Syntax) -> Option<int> {
    match syntax {
        Syntax::Posix => if bytes.len() >= 1 && bytes[0] == SLASH {
            Some(1)
        } else {
            None
        },
        Syntax::Windows => if bytes.len() >= 2 && bytes[0] == SLASH && bytes[1] == SLASH {
            Some(2)
        } else if bytes.len() >= 3 && is_alphabetic(bytes[0]) && bytes[1] == COLON && bytes[2]
            == SLASH {
            Some(3)
        } else {
            None
        },
    }
}

/// The component that starts at `from`.
pub open spec fn component_at(path: Seq<u8>, from: int) -> Seq<u8> {
    path.subrange(from, index_from(path, SLASH, from))
}

/// Where the component after the one at `from` starts, or the length.
pub open spec fn after_component(path: Seq<u8>, from: int) -> int {
    let end = index_from(path, SLASH, from);
    if end < path.len() {
        end + 1
    } else {
        path.len() as int
    }
}

/// Whether a component names nothing: it is empty or `.`.
pub open spec fn names_nothing(component: Seq<u8>) -> bool {
    component.len() == 0 || component == seq![DOT]
}

/// Where the first component that names something starts, or the length.
pub open spec fn skip_noise(path: Seq<u8>, from: int) -> int
    decreases path.len() - from,
    when 0 <= from
    via skip_noise_decreases
{
    if from >= path.len() {
        path.len() as int
    } else if names_nothing(component_at(path, from)) {
        skip_noise(path, after_component(path, from))
    } else {
        from
    }
}

#[via_fn]
proof fn skip_noise_decreases(path: Seq<u8>, from: int) {
    if from < path.len() {
        lemma_index_from(path, SLASH, from);
    }
}

/// The components of `path` from `from` on that name something.
pub open spec fn named_components(path: Seq<u8>, from: int) -> Seq<Seq<u8>>
    decreases path.len() - from,
    when 0 <= from
    via named_components_decreases
{
    let at = skip_noise(path, from);
    if at >= path.len() || at < from {
        Seq::empty()
    } else {
        seq![component_at(path, at)] + named_components(path, after_component(path, at))
    }
}

#[via_fn]
proof fn named_components_decreases(path: Seq<u8>, from: int) {
    let at = skip_noise(path, from);
    if from <= at < path.len() {
        lemma_index_from(path, SLASH, at);
    }
}

/// The offset of the first `..` component at or after `from`.
pub open spec fn parent_component_from(path: Seq<u8>, from: int) -> Option<int>
    decreases path.len() - from,
    when 0 <= from
    via parent_component_decreases
{
    if from >= path.len() {
        None
    } else if component_at(path, from) == seq![DOT, DOT] {
        Some(from)
    } else {
        parent_component_from(path, after_component(path, from))
    }
}

#[via_fn]
proof fn parent_component_decreases(path: Seq<u8>, from: int) {
    if from < path.len() {
        lemma_index_from(path, SLASH, from);
    }
}

/// Whether a component of the pattern is the root's component number `index`.
/// The host and the share of a UNC root are names whose case does not count.
pub open spec fn components_agree(
    component: Seq<u8>,
    root_component: Seq<u8>,
    index: int,
    share: bool,
) -> bool {
    if share && index < 2 {
        all_lowered(component) == all_lowered(root_component)
    } else {
        component == root_component
    }
}

/// What removing the root's components from a pattern came to.
pub ghost enum Stripped {
    /// Every component was there; the rest of the pattern starts here.
    Rest(int),
    Outside,
    /// The pattern's component at this offset holds a metacharacter, or comes
    /// after one.
    Wildcard(int),
    RootHasParent,
}

/// Removes the root's components `names`, from number `index` on, from the
/// text of `pattern` at `from`.
pub open spec fn strip_names(
    pattern: Seq<u8>,
    from: int,
    magic: Option<int>,
    names: Seq<Seq<u8>>,
    index: int,
    share: bool,
) -> Stripped
    decreases names.len() - index,
{
    if index >= names.len() {
        Stripped::Rest(from)
    } else if names[index] == seq![DOT, DOT] {
        Stripped::RootHasParent
    } else {
        let at = skip_noise(pattern, from);
        if at >= pattern.len() {
            Stripped::Outside
        } else {
            let component = component_at(pattern, at);
            if magic is Some && magic->0 < at + component.len() {
                Stripped::Wildcard(at)
            } else if !components_agree(component, names[index], index, share) {
                Stripped::Outside
            } else {
                strip_names(
                    pattern,
                    after_component(pattern, at),
                    magic,
                    names,
                    index + 1,
                    share,
                )
            }
        }
    }
}

/// What a pattern turns into, given what removing the root's components from
/// it came to.
pub open spec fn placed(stripped: Stripped, pattern: Seq<u8>, shift: int) -> Rewritten {
    match stripped {
        Stripped::Outside => Rewritten::Outside,
        Stripped::Wildcard(at) => Rewritten::Refused(
            Refusal { offset: at + shift, message: WILDCARD_ABOVE_ROOT@ },
        ),
        Stripped::RootHasParent => Rewritten::Refused(
            Refusal { offset: 0, message: ROOT_HAS_PARENT@ },
        ),
        Stripped::Rest(from) => {
            let at = skip_noise(pattern, from);
            if at >= pattern.len() {
                Rewritten::Refused(
                    Refusal { offset: pattern.len() + shift, message: NAMES_THE_ROOT@ },
                )
            } else {
                Rewritten::Rooted { bytes: pattern.skip(at), source_start: at + shift }
            }
        },
    }
}

/// What `pattern` turns into for a walk rooted at `root`, both in their
/// ordinary spelling. Offsets are offsets into the ordinary spelling, plus
/// `shift`.
pub open spec fn rewritten_ordinary(
    pattern: Seq<u8>,
    root: Seq<u8>,
    syntax: Syntax,
    shift: int,
) -> Rewritten {
    match (absolute_length(pattern, syntax), absolute_length(root, syntax)) {
        (None, _) => Rewritten::Relative,
        (Some(_), None) => Rewritten::Refused(
            Refusal { offset: 0, message: NEEDS_ABSOLUTE_ROOT@ },
        ),
        (Some(prefix), Some(root_prefix)) => {
            if all_lowered(pattern.take(prefix)) != all_lowered(root.take(root_prefix)) {
                Rewritten::Outside
            } else if parent_component_from(pattern, 0) is Some {
                Rewritten::Refused(
                    Refusal {
                        offset: parent_component_from(pattern, 0)->0 + shift,
                        message: UNRESOLVED_PARENT@,
                    },
                )
            } else {
                let share = syntax == Syntax::Windows && root_prefix == 2;
                placed(
                    strip_names(
                        pattern,
                        prefix,
                        metacharacter_from(pattern, 0),
                        named_components(root, root_prefix),
                        0,
                        share,
                    ),
                    pattern,
                    shift,
                )
            }
        },
    }
}

/// What `pattern` turns into for a walk rooted at `root`.
///
/// A pattern that is not absolute stays. Of an absolute one the root's
/// components come off, and what is left is the root-relative pattern; one
/// that names another tree is outside.
pub open spec fn rewritten(pattern: Seq<u8>, root: Seq<u8>, syntax: Syntax) -> Rewritten {
    rewritten_ordinary(
        ordinary_spelling(pattern, syntax),
        ordinary_spelling(root, syntax),
        syntax,
        verbatim_shift(pattern, syntax),
    )
}

/// The model of an executed rewrite's outcome.
pub open spec fn outcome(result: Result<Rewrite, PatternError>) -> Rewritten {
    match result {
        Ok(Rewrite::Relative) => Rewritten::Relative,
        Ok(Rewrite::Rooted { bytes, source_start }) => Rewritten::Rooted {
            bytes: bytes@,
            source_start: source_start as int,
        },
        Ok(Rewrite::Outside) => Rewritten::Outside,
        Err(error) => Rewritten::Refused(error@),
    }
}

/// Rejects a walker pattern that a Windows host can never match, when the
/// reason is that it was written as a path.
///
/// Backslash is the escape character in this dialect on every platform, so a
/// pattern built by joining paths on Windows does not fail: it quietly turns
/// each separator into "the next byte, literally" and then matches nothing.
/// The test fires only where the pattern would demand a literal byte Windows
/// cannot put in a name, and it reads only the plain text before the first
/// group, because inside a group an escaped byte is one member among several.
pub fn reject_path_shaped(pattern: &[u8], syntax: Syntax) -> (result: Result<(), PatternError>)
    ensures
        match result {
            Ok(_) => path_shape(pattern@, syntax) is None,
            Err(error) => path_shape(pattern@, syntax) is Some && error@ == (Refusal {
                offset: path_shape(pattern@, syntax)->0,
                message: PATH_SHAPED@,
            }),
        },
        result is Err ==> result->Err_0@.offset < pattern@.len(),
{
    if syntax != Syntax::Windows {
        return Ok(());
    }
    if let Some(offset) = drive_prefix_with_backslash(pattern) {
        return Err(PatternError::new(offset, PATH_SHAPED));
    }
    if let Some(offset) = path_shaped_byte(pattern) {
        return Err(PatternError::new(offset, PATH_SHAPED));
    }
    Ok(())
}

/// Offset of a byte that makes a plain-text Windows pattern unmatchable.
fn path_shaped_byte(pattern: &[u8]) -> (result: Option<usize>)
    ensures
        match result {
            Some(at) => path_shaped_from(pattern@, 0) == Some(at as int) && at < pattern@.len(),
            None => path_shaped_from(pattern@, 0) is None,
        },
{
    let mut index: usize = 0;
    while index < pattern.len()
        invariant
            index <= pattern.len(),
            path_shaped_from(pattern@, 0) == path_shaped_from(pattern@, index as int),
        decreases pattern.len() - index,
    {
        let byte: u8 = pattern[index];
        if byte == BACKSLASH {
            // A trailing backslash is the pattern language's own business.
            if index + 1 >= pattern.len() {
                return None;
            }
            let escaped: u8 = pattern[index + 1];
            if escaped == BACKSLASH || escaped == COLON || escaped == STAR || escaped == QUESTION
                || escaped == QUOTE || escaped == LESS || escaped == GREATER || escaped == PIPE {
                return Some(index);
            }
            index += 2;
        } else {
            let of_a_drive = index == 1 && alphabetic(pattern[0]) && pattern.len() > 2 && pattern[2]
                == SLASH;
            if byte == COLON && !of_a_drive {
                return Some(index);
            }
            if opens_a_group(pattern, index) {
                return None;
            }
            index += 1;
        }
    }
    None
}

/// Whether the unescaped byte at `index` could begin a class, an alternation
/// or an extended-glob group. Asked without looking for the closer.
fn opens_a_group(pattern: &[u8], index: usize) -> (result: bool)
    requires
        index < pattern@.len(),
    ensures
        result == group_opens_at(pattern@, index as int),
{
    let byte: u8 = pattern[index];
    if byte == BRACKET_OPEN || byte == BRACE_OPEN {
        true
    } else if byte == AT || byte == PLUS || byte == BANG || byte == STAR || byte == QUESTION {
        index + 1 < pattern.len() && pattern[index + 1] == PAREN_OPEN
    } else {
        false
    }
}

/// Offset of a `X:\` drive prefix, if the pattern opens with one.
fn drive_prefix_with_backslash(pattern: &[u8]) -> (result: Option<usize>)
    ensures
        result is Some == opens_with_drive_backslash(pattern@),
        result is Some ==> result->0 == 0,
{
    if pattern.len() >= 3 && alphabetic(pattern[0]) && pattern[1] == COLON && pattern[2]
        == BACKSLASH {
        Some(0)
    } else {
        None
    }
}

/// Removes Windows' verbatim namespace prefix from a path spelling, and says
/// how many bytes shorter the spelling became.
fn deverbatimize(bytes: &[u8], syntax: Syntax) -> (result: (Vec<u8>, usize))
    ensures
        result.0@ == ordinary_spelling(bytes@, syntax),
        result.1 == verbatim_shift(bytes@, syntax),
        result.0@.len() + result.1 == bytes@.len(),
{
    if syntax != Syntax::Windows || bytes.len() < 4 || bytes[0] != SLASH || bytes[1] != SLASH
        || bytes[2] != QUESTION || bytes[3] != SLASH {
        return (slice_to_vec(bytes), 0);
    }
    if bytes.len() >= 8 && lower(bytes[4]) == 0x75 && lower(bytes[5]) == 0x6e && lower(bytes[6])
        == 0x63 && bytes[7] == SLASH {
        let mut ordinary: Vec<u8> = Vec::new();
        ordinary.push(SLASH);
        ordinary.push(SLASH);
        append(&mut ordinary, slice_subrange(bytes, 8, bytes.len()));
        assert(ordinary@ =~= ordinary_spelling(bytes@, syntax));
        (ordinary, 6)
    } else {
        let rest = slice_subrange(bytes, 4, bytes.len());
        assert(rest@ =~= bytes@.skip(4));
        (slice_to_vec(rest), 4)
    }
}

/// Length of the prefix that makes `bytes` absolute, if it is.
pub(crate) fn absolute_prefix(bytes: &[u8], syntax: Syntax) -> (result: Option<usize>)
    ensures
        match result {
            Some(length) => absolute_length(bytes@, syntax) == Some(length as int) && length
                <= bytes@.len(),
            None => absolute_length(bytes@, syntax) is None,
        },
{
    match syntax {
        Syntax::Posix => if bytes.len() >= 1 && bytes[0] == SLASH {
            Some(1)
        } else {
            None
        },
        Syntax::Windows => if bytes.len() >= 2 && bytes[0] == SLASH && bytes[1] == SLASH {
            Some(2)
        } else if bytes.len() >= 3 && alphabetic(bytes[0]) && bytes[1] == COLON && bytes[2]
            == SLASH {
            Some(3)
        } else {
            None
        },
    }
}

/// Whether two absolute prefixes name the same root. The only prefix with
/// content of its own is a drive letter, whose case does not count.
fn roots_agree(pattern_prefix: &[u8], root_prefix: &[u8]) -> (result: bool)
    ensures
        result == (all_lowered(pattern_prefix@) == all_lowered(root_prefix@)),
{
    same_ignoring_case(pattern_prefix, root_prefix)
}

/// The component starting at `offset`, and where the next one starts.
///
/// Splits on `/` only: `\` is an escape in the pattern dialect.
pub(crate) fn next_component(path: &[u8], offset: usize) -> (result: (&[u8], usize))
    requires
        offset < path@.len(),
    ensures
        result.0@ == component_at(path@, offset as int),
        result.1 == after_component(path@, offset as int),
        offset < result.1 <= path@.len(),
        offset + result.0@.len() <= result.1,
{
    let end = position_from(path, SLASH, offset);
    let component = slice_subrange(path, offset, end);
    if end < path.len() {
        (component, end + 1)
    } else {
        (component, path.len())
    }
}

fn is_noise(component: &[u8]) -> (result: bool)
    ensures
        result == names_nothing(component@),
{
    if component.len() == 0 {
        return true;
    }
    let result = component.len() == 1 && component[0] == DOT;
    assert(result ==> component@ =~= seq![DOT]);
    result
}

pub(crate) fn is_parent(component: &[u8]) -> (result: bool)
    ensures
        result == (component@ == seq![DOT, DOT]),
{
    let result = component.len() == 2 && component[0] == DOT && component[1] == DOT;
    assert(result ==> component@ =~= seq![DOT, DOT]);
    result
}

/// Where the first component at or after `offset` that names something starts.
pub(crate) fn next_named(path: &[u8], offset: usize) -> (result: usize)
    requires
        offset <= path@.len(),
    ensures
        result == skip_noise(path@, offset as int),
        offset <= result <= path@.len(),
{
    let mut at: usize = offset;
    while at < path.len()
        invariant
            offset <= at <= path.len(),
            skip_noise(path@, offset as int) == skip_noise(path@, at as int),
        decreases path.len() - at,
    {
        let (component, next) = next_component(path, at);
        if !is_noise(component) {
            return at;
        }
        at = next;
    }
    at
}

/// Offset of the first `..` path component, if the pattern has one.
///
/// Components are split on `/` alone, so a `..` hidden inside a brace
/// alternative is not found: this finds the spelling that looks like a path
/// operation, not every byte sequence that could expand to one.
fn dot_dot_component(pattern: &[u8]) -> (result: Option<usize>)
    ensures
        match result {
            Some(at) => parent_component_from(pattern@, 0) == Some(at as int) && at
                < pattern@.len(),
            None => parent_component_from(pattern@, 0) is None,
        },
{
    let mut offset: usize = 0;
    while offset < pattern.len()
        invariant
            offset <= pattern.len(),
            parent_component_from(pattern@, 0) == parent_component_from(pattern@, offset as int),
        decreases pattern.len() - offset,
    {
        let (component, next) = next_component(pattern, offset);
        if is_parent(component) {
            return Some(offset);
        }
        offset = next;
    }
    None
}

/// Rewrites `pattern` for a walk rooted at `root`, or reports why it cannot.
///
/// `root` is the walk root with `/` separators. The offset of an error is an
/// offset into `pattern` as the caller spelled it.
pub fn rewrite_in(pattern: &[u8], root: &[u8], syntax: Syntax) -> (result: Result<
    Rewrite,
    PatternError,
>)
    ensures
        outcome(result) == rewritten(pattern@, root@, syntax),
        match result {
            Ok(Rewrite::Rooted { bytes, source_start }) => source_start + bytes@.len()
                == pattern@.len(),
            Ok(_) => true,
            Err(error) => error@.offset <= pattern@.len(),
        },
{
    assert(pattern.len() == pattern@.len());
    let (ordinary_pattern, shift) = deverbatimize(pattern, syntax);
    let (ordinary_root, _) = deverbatimize(root, syntax);
    let plain = ordinary_pattern.as_slice();
    let plain_root = ordinary_root.as_slice();
    let prefix = match absolute_prefix(plain, syntax) {
        Some(prefix) => prefix,
        None => {
            return Ok(Rewrite::Relative);
        },
    };
    let root_prefix = match absolute_prefix(plain_root, syntax) {
        Some(root_prefix) => root_prefix,
        None => {
            // Relating the two would take the current directory.
            return Err(PatternError::new(0, NEEDS_ABSOLUTE_ROOT));
        },
    };
    proof {
        assert(plain@.subrange(0, prefix as int) =~= plain@.take(prefix as int));
        assert(plain_root@.subrange(0, root_prefix as int) =~= plain_root@.take(root_prefix as int));
    }
    if !roots_agree(slice_subrange(plain, 0, prefix), slice_subrange(plain_root, 0, root_prefix)) {
        // A different drive or share.
        return Ok(Rewrite::Outside);
    }
    // Refused wherever it stands: what is left of `/a/b/../b/x` without `/a/b`
    // would match no candidate at all.
    if let Some(at) = dot_dot_component(plain) {
        return Err(PatternError::new(at + shift, UNRESOLVED_PARENT));
    }
    let magic = first_metacharacter(plain);
    let share = syntax == Syntax::Windows && root_prefix == 2;
    let ghost names = named_components(plain_root@, root_prefix as int);
    let ghost ghost_magic = metacharacter_from(plain@, 0);
    let mut offset: usize = prefix;
    let mut root_offset: usize = root_prefix;
    let mut index: usize = 0;
    loop
        invariant
            offset <= plain@.len(),
            root_offset <= plain_root@.len(),
            index <= root_offset,
            index <= names.len(),
            plain@.len() + shift == pattern@.len() <= usize::MAX,
            rewritten(pattern@, root@, syntax) == rewritten_ordinary(
                plain@,
                plain_root@,
                syntax,
                shift as int,
            ),
            names.skip(index as int) == named_components(plain_root@, root_offset as int),
            match magic {
                Some(at) => ghost_magic == Some(at as int) && at < plain@.len(),
                None => ghost_magic is None,
            },
            strip_names(plain@, prefix as int, ghost_magic, names, 0, share) == strip_names(
                plain@,
                offset as int,
                ghost_magic,
                names,
                index as int,
                share,
            ),
            rewritten_ordinary(plain@, plain_root@, syntax, shift as int) == placed(
                strip_names(plain@, prefix as int, ghost_magic, names, 0, share),
                plain@,
                shift as int,
            ),
        ensures
            index == names.len(),
            offset <= plain@.len(),
            strip_names(plain@, prefix as int, ghost_magic, names, 0, share) == Stripped::Rest(
                offset as int,
            ),
        decreases plain_root@.len() - root_offset,
    {
        let root_at = next_named(plain_root, root_offset);
        if root_at >= plain_root.len() {
            assert(names.skip(index as int).len() == 0);
            break;
        }
        let (root_component, root_next) = next_component(plain_root, root_at);
        proof {
            assert(names.skip(index as int).len() > 0);
            assert(names.skip(index as int)[0] == root_component@);
            assert(names[index as int] == root_component@);
            assert(names.skip(index as int).skip(1) =~= names.skip(index + 1));
            assert(named_components(plain_root@, root_offset as int).skip(1) =~= named_components(
                plain_root@,
                root_next as int,
            ));
        }
        if is_parent(root_component) {
            return Err(PatternError::new(0, ROOT_HAS_PARENT));
        }
        let at = next_named(plain, offset);
        if at >= plain.len() {
            // The pattern named an ancestor of the root and stopped there.
            return Ok(Rewrite::Outside);
        }
        let (component, next) = next_component(plain, at);
        let covered = match magic {
            Some(magic_at) => magic_at < at + component.len(),
            None => false,
        };
        if covered {
            return Err(PatternError::new(at + shift, WILDCARD_ABOVE_ROOT));
        }
        let agrees = if share && index < 2 {
            same_ignoring_case(component, root_component)
        } else {
            same(component, root_component)
        };
        if !agrees {
            return Ok(Rewrite::Outside);
        }
        offset = next;
        root_offset = root_next;
        index += 1;
    }
    // The separators that joined the root to the rest belong to neither.
    let at = next_named(plain, offset);
    if at >= plain.len() {
        return Err(PatternError::new(at + shift, NAMES_THE_ROOT));
    }
    let rest = slice_subrange(plain, at, plain.len());
    assert(rest@ =~= plain@.skip(at as int));
    Ok(Rewrite::Rooted { bytes: slice_to_vec(rest), source_start: at + shift })
}

/// `index_from` looks at the text from `from` on and at nothing before it.
proof fn lemma_index_from_shift(path: Seq<u8>, byte: u8, by: int, from: int)
    requires
        0 <= by <= path.len(),
        0 <= from <= path.len() - by,
    ensures
        index_from(path.skip(by), byte, from) + by == index_from(path, byte, from + by),
    decreases path.len() - by - from,
{
    if from < path.len() - by && path.skip(by)[from] != byte {
        lemma_index_from_shift(path, byte, by, from + 1);
    }
}

/// The component at an offset is the same in the text cut off before it.
proof fn lemma_component_shift(path: Seq<u8>, by: int, from: int)
    requires
        0 <= by <= path.len(),
        0 <= from <= path.len() - by,
    ensures
        component_at(path.skip(by), from) == component_at(path, from + by),
        after_component(path.skip(by), from) + by == after_component(path, from + by),
{
    lemma_index_from_shift(path, SLASH, by, from);
    lemma_index_from(path, SLASH, from + by);
    assert(component_at(path.skip(by), from) =~= component_at(path, from + by));
}

proof fn lemma_skip_noise_shift(path: Seq<u8>, by: int, from: int)
    requires
        0 <= by <= path.len(),
        0 <= from <= path.len() - by,
    ensures
        skip_noise(path.skip(by), from) + by == skip_noise(path, from + by),
        from + by <= skip_noise(path, from + by) <= path.len(),
    decreases path.len() - by - from,
{
    if from < path.len() - by {
        lemma_component_shift(path, by, from);
        lemma_index_from(path, SLASH, from + by);
        if names_nothing(component_at(path, from + by)) {
            lemma_skip_noise_shift(path, by, after_component(path.skip(by), from));
        }
    }
}

pub(crate) proof fn lemma_named_components_shift(path: Seq<u8>, by: int, from: int)
    requires
        0 <= by <= path.len(),
        0 <= from <= path.len() - by,
    ensures
        named_components(path.skip(by), from) == named_components(path, from + by),
    decreases path.len() - by - from,
{
    lemma_skip_noise_shift(path, by, from);
    let at = skip_noise(path, from + by);
    if at < path.len() {
        lemma_component_shift(path, by, at - by);
        lemma_index_from(path, SLASH, at);
        lemma_named_components_shift(path, by, after_component(path.skip(by), at - by));
    }
}

/// Noise in front of a named component does not change what is named.
proof fn lemma_named_components_skip(path: Seq<u8>, from: int)
    requires
        0 <= from <= path.len(),
    ensures
        from <= skip_noise(path, from) <= path.len(),
        skip_noise(path, skip_noise(path, from)) == skip_noise(path, from),
        named_components(path, skip_noise(path, from)) == named_components(path, from),
        skip_noise(path, from) < path.len() ==> !names_nothing(
            component_at(path, skip_noise(path, from)),
        ),
    decreases path.len() - from,
{
    assert(path.skip(0) =~= path);
    lemma_skip_noise_shift(path, 0, from);
    if from < path.len() && names_nothing(component_at(path, from)) {
        lemma_index_from(path, SLASH, from);
        lemma_named_components_skip(path, after_component(path, from));
    }
}

/// What `strip_names` takes off is what the names say.
proof fn lemma_strip_names(
    pattern: Seq<u8>,
    from: int,
    magic: Option<int>,
    names: Seq<Seq<u8>>,
    index: int,
    share: bool,
)
    requires
        0 <= from <= pattern.len(),
        0 <= index <= names.len(),
        strip_names(pattern, from, magic, names, index, share) is Rest,
    ensures
        ({
            let rest = strip_names(pattern, from, magic, names, index, share)->Rest_0;
            let mine = named_components(pattern, from);
            let count = names.len() - index;
            &&& from <= rest <= pattern.len()
            &&& count <= mine.len()
            &&& mine.skip(count) == named_components(pattern, rest)
            &&& forall|k: int|
                #![trigger mine[k]]
                0 <= k < count ==> components_agree(mine[k], names[index + k], index + k, share)
        }),
    decreases names.len() - index,
{
    let mine = named_components(pattern, from);
    if index < names.len() {
        lemma_named_components_skip(pattern, from);
        let at = skip_noise(pattern, from);
        lemma_index_from(pattern, SLASH, at);
        let next = after_component(pattern, at);
        lemma_strip_names(pattern, next, magic, names, index + 1, share);
        let rest = strip_names(pattern, from, magic, names, index, share)->Rest_0;
        let others = named_components(pattern, next);
        let count = names.len() - index;
        assert(mine =~= seq![component_at(pattern, at)] + others);
        assert(mine.skip(count) =~= others.skip(count - 1));
        assert forall|k: int| #![trigger mine[k]] 0 <= k < count implies components_agree(
            mine[k],
            names[index + k],
            index + k,
            share,
        ) by {
            if k > 0 {
                assert(mine[k] == others[k - 1]);
                assert(components_agree(
                    others[k - 1],
                    names[index + 1 + (k - 1)],
                    index + 1 + (k - 1),
                    share,
                ));
            }
        }
    } else {
        assert(mine.skip(0) =~= mine);
    }
}

/// A rewritten pattern is the caller's pattern without exactly the root.
///
/// Its bytes are the end of the caller's text, from `source_start` on. Taken
/// by the components that name something, the caller's pattern is the root's
/// components followed by those of the rewritten pattern, and the rewritten
/// pattern starts with a component that names something.
pub proof fn law_rewrite_removes_exactly_the_root(pattern: Seq<u8>, root: Seq<u8>, syntax: Syntax)
    requires
        rewritten(pattern, root, syntax) is Rooted,
    ensures
        ({
            let plain = ordinary_spelling(pattern, syntax);
            let plain_root = ordinary_spelling(root, syntax);
            let prefix = absolute_length(plain, syntax)->0;
            let root_prefix = absolute_length(plain_root, syntax)->0;
            let names = named_components(plain, prefix);
            let root_names = named_components(plain_root, root_prefix);
            let rest = rewritten(pattern, root, syntax)->bytes;
            &&& rest == pattern.skip(rewritten(pattern, root, syntax)->source_start)
            &&& rest.len() > 0
            &&& !names_nothing(component_at(rest, 0))
            &&& root_names.len() < names.len()
            &&& names.skip(root_names.len() as int) == named_components(rest, 0)
            &&& forall|k: int|
                #![trigger names[k]]
                0 <= k < root_names.len() ==> components_agree(
                    names[k],
                    root_names[k],
                    k,
                    syntax == Syntax::Windows && root_prefix == 2,
                )
        }),
{
    let plain = ordinary_spelling(pattern, syntax);
    let plain_root = ordinary_spelling(root, syntax);
    let prefix = absolute_length(plain, syntax)->0;
    let root_prefix = absolute_length(plain_root, syntax)->0;
    let root_names = named_components(plain_root, root_prefix);
    let share = syntax == Syntax::Windows && root_prefix == 2;
    let magic = metacharacter_from(plain, 0);
    lemma_strip_names(plain, prefix, magic, root_names, 0, share);
    let from = strip_names(plain, prefix, magic, root_names, 0, share)->Rest_0;
    lemma_named_components_skip(plain, from);
    let at = skip_noise(plain, from);
    let rest = plain.skip(at);
    lemma_named_components_shift(plain, at, 0);
    lemma_component_shift(plain, at, 0);
    lemma_skip_noise_shift(plain, at, 0);
    assert(rest =~= pattern.skip(at + verbatim_shift(pattern, syntax)));
    assert(named_components(rest, 0).len() > 0);
}

/// Text put behind a separator does not change a component before it.
pub(crate) proof fn lemma_component_in_prefix(path: Seq<u8>, tail: Seq<u8>, from: int)
    requires
        0 <= from <= path.len(),
    ensures
        component_at(path.push(SLASH) + tail, from) == component_at(path, from),
        after_component(path.push(SLASH) + tail, from) == (if index_from(path, SLASH, from)
            < path.len() {
            after_component(path, from)
        } else {
            path.len() as int + 1
        }),
    decreases path.len() - from,
{
    let whole = path.push(SLASH) + tail;
    lemma_index_from(path, SLASH, from);
    lemma_index_from_is(whole, SLASH, from, index_from(path, SLASH, from));
    assert(component_at(whole, from) =~= component_at(path, from));
}

/// Walking the noise of a longer text either stays inside the root's part or
/// comes out right behind it.
proof fn lemma_noise_in_prefix(path: Seq<u8>, tail: Seq<u8>, from: int)
    requires
        0 <= from <= path.len(),
        tail.len() > 0,
        !names_nothing(component_at(tail, 0)),
    ensures
        ({
            let whole = path.push(SLASH) + tail;
            let at = skip_noise(path, from);
            &&& from <= at <= path.len()
            &&& at < path.len() ==> skip_noise(whole, from) == at
            &&& at == path.len() ==> skip_noise(whole, from) == path.len() + 1
        }),
    decreases path.len() - from,
{
    let whole = path.push(SLASH) + tail;
    lemma_component_in_prefix(path, tail, from);
    lemma_index_from(path, SLASH, from);
    assert(whole.skip(path.len() as int + 1) =~= tail);
    lemma_component_shift(whole, path.len() as int + 1, 0);
    assert(skip_noise(whole, path.len() as int + 1) == path.len() as int + 1);
    assert(skip_noise(path, path.len() as int) == path.len());
    if from < path.len() {
        if names_nothing(component_at(path, from)) {
            if index_from(path, SLASH, from) < path.len() {
                lemma_noise_in_prefix(path, tail, after_component(path, from));
            }
        }
    } else {
        assert(component_at(path, from) =~= Seq::empty());
    }
}

proof fn lemma_strip_own_root(
    root: Seq<u8>,
    tail: Seq<u8>,
    from: int,
    magic: Option<int>,
    names: Seq<Seq<u8>>,
    index: int,
    share: bool,
)
    requires
        0 <= from <= root.len(),
        tail.len() > 0,
        !names_nothing(component_at(tail, 0)),
        0 <= index <= names.len(),
        names.skip(index) == named_components(root, from),
        forall|k: int| 0 <= k < names.len() ==> #[trigger] names[k] != seq![DOT, DOT],
        magic is Some ==> magic->0 >= root.len(),
    ensures
        ({
            let whole = root.push(SLASH) + tail;
            let stripped = strip_names(whole, from, magic, names, index, share);
            stripped is Rest && skip_noise(whole, stripped->Rest_0) == root.len() + 1
        }),
    decreases root.len() - from,
{
    let whole = root.push(SLASH) + tail;
    lemma_noise_in_prefix(root, tail, from);
    lemma_named_components_skip(root, from);
    let at = skip_noise(root, from);
    if at < root.len() {
        let next = after_component(root, at);
        lemma_index_from(root, SLASH, at);
        lemma_component_in_prefix(root, tail, at);
        assert(names.skip(index).len() > 0);
        assert(names.skip(index)[0] == component_at(root, at));
        assert(names[index] == component_at(root, at));
        assert(named_components(root, from).skip(1) =~= named_components(root, next));
        assert(names.skip(index + 1) =~= names.skip(index).skip(1));
        if index_from(root, SLASH, at) < root.len() {
            lemma_strip_own_root(root, tail, next, magic, names, index + 1, share);
        } else {
            assert(named_components(root, next) =~= Seq::empty());
            assert(names.len() == index + 1);
            assert(whole.skip(root.len() as int + 1) =~= tail);
            lemma_component_shift(whole, root.len() as int + 1, 0);
            assert(skip_noise(whole, root.len() as int + 1) == root.len() as int + 1);
            assert(strip_names(whole, root.len() as int + 1, magic, names, index + 1, share)
                == Stripped::Rest(root.len() as int + 1));
        }
    } else {
        assert(names.skip(index).len() == 0);
    }
}

/// A byte that stops a text from being literal is found, or one before it.
proof fn lemma_metacharacter_found(pattern: Seq<u8>, from: int, at: int)
    requires
        0 <= from <= at < pattern.len(),
        is_metacharacter_at(pattern, at),
    ensures
        metacharacter_from(pattern, from) is Some,
        metacharacter_from(pattern, from)->0 <= at,
    decreases at - from,
{
    if from < at && !is_metacharacter_at(pattern, from) {
        lemma_metacharacter_found(pattern, from + 1, at);
    }
}

/// What makes a path absolute holds no `..` and ends where a component starts.
proof fn lemma_parent_after_prefix(path: Seq<u8>, tail: Seq<u8>, syntax: Syntax)
    requires
        absolute_length(path, syntax) is Some,
        parent_component_from(path.push(SLASH) + tail, 0) is None,
    ensures
        parent_component_from(
            path.push(SLASH) + tail,
            absolute_length(path, syntax)->0,
        ) is None,
{
    let whole = path.push(SLASH) + tail;
    let prefix = absolute_length(path, syntax)->0;
    reveal_with_fuel(parent_component_from, 3);
    if prefix == 1 {
        lemma_index_from_is(whole, SLASH, 0, 0);
    } else if prefix == 2 {
        lemma_index_from_is(whole, SLASH, 0, 0);
        lemma_index_from_is(whole, SLASH, 1, 1);
    } else {
        lemma_index_from_is(whole, SLASH, 0, 2);
    }
}

/// Where a text with a root in front has no `..` component, the root has none.
proof fn lemma_no_parent_in_prefix(path: Seq<u8>, tail: Seq<u8>, from: int)
    requires
        0 <= from <= path.len(),
        parent_component_from(path.push(SLASH) + tail, from) is None,
    ensures
        forall|k: int|
            0 <= k < named_components(path, from).len() ==> #[trigger] named_components(
                path,
                from,
            )[k] != seq![DOT, DOT],
    decreases path.len() - from,
{
    if from < path.len() {
        let next = after_component(path, from);
        lemma_index_from(path, SLASH, from);
        lemma_component_in_prefix(path, tail, from);
        lemma_named_components_skip(path, from);
        if index_from(path, SLASH, from) < path.len() {
            lemma_no_parent_in_prefix(path, tail, next);
        } else {
            assert(named_components(path, next) =~= Seq::empty());
        }
        if names_nothing(component_at(path, from)) {
            lemma_named_components_skip(path, next);
            assert(named_components(path, from) =~= named_components(path, next));
        } else {
            assert(named_components(path, from) =~= seq![component_at(path, from)]
                + named_components(path, next));
        }
    }
}

/// An absolute pattern means what its relative spelling means: put a root in
/// front of a relative pattern, and rewriting for that root gives the relative
/// pattern back.
///
/// The root has to be one that can be spelled literally, and no component of
/// the text may be `..`.
pub proof fn law_rewrite_undoes_prefixing(root: Seq<u8>, relative: Seq<u8>, syntax: Syntax)
    requires
        absolute_length(ordinary_spelling(root, syntax), syntax) is Some,
        relative.len() > 0,
        !names_nothing(component_at(relative, 0)),
        parent_component_from(ordinary_spelling(root, syntax).push(SLASH) + relative, 0) is None,
        match metacharacter_from(ordinary_spelling(root, syntax).push(SLASH) + relative, 0) {
            Some(at) => at >= ordinary_spelling(root, syntax).len(),
            None => true,
        },
    ensures
        rewritten(root.push(SLASH) + relative, root, syntax) == (Rewritten::Rooted {
            bytes: relative,
            source_start: root.len() as int + 1,
        }),
{
    let plain = ordinary_spelling(root, syntax);
    let whole = plain.push(SLASH) + relative;
    let spelled = root.push(SLASH) + relative;
    let prefix = absolute_length(plain, syntax)->0;
    let names = named_components(plain, prefix);
    let share = syntax == Syntax::Windows && prefix == 2;
    if syntax == Syntax::Windows && !has_verbatim_prefix(root) {
        // A root of just `//?` would have been spelled with a wildcard.
        if has_verbatim_prefix(spelled) {
            assert(root.len() == 3);
            lemma_metacharacter_found(whole, 0, 2);
        }
    }
    assert(ordinary_spelling(spelled, syntax) =~= whole);
    assert(verbatim_shift(spelled, syntax) + whole.len() == spelled.len());
    assert(absolute_length(whole, syntax) == Some(prefix));
    assert(names.skip(0) =~= names);
    assert(whole.take(prefix) =~= plain.take(prefix));
    lemma_parent_after_prefix(plain, relative, syntax);
    lemma_no_parent_in_prefix(plain, relative, prefix);
    lemma_strip_own_root(plain, relative, prefix, metacharacter_from(whole, 0), names, 0, share);
    assert(whole.skip(plain.len() as int + 1) =~= relative);
}

} // verus!
