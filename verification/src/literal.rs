//! What a pattern says literally, before any of it is matched.
//!
//! The walk planner prunes on literal text: the directory every match must lie
//! under, and the extension every match must end in. Both are read off the
//! pattern here, and both are withheld as soon as one alternative does not
//! have them.
use vstd::prelude::*;
use vstd::slice::{slice_subrange, slice_to_vec};

use crate::bytes::{
    begins_with, last_index_before, last_position_before, lemma_last_index_before, same,
    starts_with, AT, BACKSLASH, BANG, BRACE_CLOSE, BRACE_OPEN, BRACKET_CLOSE, BRACKET_OPEN, DOT, PAREN_CLOSE, PAREN_OPEN, PIPE, PLUS,
    QUESTION, SLASH, STAR,
};

verus! {

/// Which spelling of paths applies.
///
/// Carried as a value rather than decided when the crate is built, so both
/// spellings can be used, and tested, on any host.
#[derive(Debug, Clone, Copy, PartialEq, Eq, Structural)]
pub enum Syntax {
    /// A leading separator makes a path absolute.
    Posix,
    /// A drive letter (`C:/`) or a UNC share (`//host/share`) does.
    Windows,
}

/// Whether `byte` separates path components under `syntax`.
pub open spec fn separates(byte: u8, syntax: Syntax) -> bool {
    byte == SLASH || (syntax == Syntax::Windows && byte == BACKSLASH)
}

/// Whether the group that `opener` at `depth` levels is inside of closes in
/// the text from `from` on. A backslash takes the byte after it out of play.
pub open spec fn closes_from(
    pattern: Seq<u8>,
    from: int,
    depth: nat,
    opener: u8,
    closer: u8,
) -> bool
    decreases pattern.len() - from,
{
    if from >= pattern.len() {
        false
    } else if pattern[from] == BACKSLASH {
        from + 2 <= pattern.len() && closes_from(pattern, from + 2, depth, opener, closer)
    } else if pattern[from] == opener {
        closes_from(pattern, from + 1, depth + 1, opener, closer)
    } else if pattern[from] == closer {
        depth <= 1 || closes_from(pattern, from + 1, (depth - 1) as nat, opener, closer)
    } else {
        closes_from(pattern, from + 1, depth, opener, closer)
    }
}

/// Whether the byte at `at` stops `pattern` from being a literal path there.
///
/// A brace or an extended-glob opener only counts once its closer is present,
/// because an unpaired one is an ordinary byte.
pub open spec fn is_metacharacter_at(pattern: Seq<u8>, at: int) -> bool {
    let byte = pattern[at];
    ||| byte == STAR || byte == QUESTION || byte == BRACKET_OPEN || byte == BACKSLASH
    ||| byte == BRACE_OPEN && closes_from(pattern, at, 0, BRACE_OPEN, BRACE_CLOSE)
    ||| (byte == AT || byte == PLUS || byte == BANG) && at + 1 < pattern.len() && pattern[at + 1]
        == PAREN_OPEN && closes_from(pattern, at + 1, 0, PAREN_OPEN, PAREN_CLOSE)
}

/// The first metacharacter at or after `from`.
pub open spec fn metacharacter_from(pattern: Seq<u8>, from: int) -> Option<int>
    decreases pattern.len() - from,
{
    if from >= pattern.len() {
        None
    } else if is_metacharacter_at(pattern, from) {
        Some(from)
    } else {
        metacharacter_from(pattern, from + 1)
    }
}

/// The directory every match of `pattern` lies in or is, where the pattern
/// proves one: everything before the last separator ahead of the first
/// metacharacter, or the whole pattern where it has none.
pub open spec fn literal_root(pattern: Seq<u8>) -> Option<Seq<u8>> {
    match metacharacter_from(pattern, 0) {
        None => if pattern.len() == 0 {
            None
        } else {
            Some(pattern)
        },
        Some(magic) => match last_index_before(pattern, SLASH, magic) {
            Some(at) => if at == 0 {
                None
            } else {
                Some(pattern.take(at))
            },
            None => None,
        },
    }
}

/// Where the last component of `path` starts.
pub open spec fn name_start(path: Seq<u8>, until: int, syntax: Syntax) -> int
    decreases until,
{
    if until <= 0 {
        0
    } else if separates(path[until - 1], syntax) {
        until
    } else {
        name_start(path, until - 1, syntax)
    }
}

/// What follows the last period of the last component of `path`.
pub open spec fn extension(path: Seq<u8>, syntax: Syntax) -> Option<Seq<u8>> {
    let start = name_start(path, path.len() as int, syntax);
    match last_index_before(path.skip(start), DOT, path.len() - start) {
        Some(at) => Some(path.skip(start + at + 1)),
        None => None,
    }
}

/// Whether `byte` keeps an extension from being literal.
pub open spec fn spoils_extension(byte: u8) -> bool {
    byte == STAR || byte == QUESTION || byte == BRACKET_OPEN || byte == BRACKET_CLOSE || byte
        == BRACE_OPEN || byte == BRACE_CLOSE || byte == BACKSLASH || byte == PAREN_OPEN || byte
        == PAREN_CLOSE || byte == PIPE
}

/// The extension every match of `pattern` ends in, where the pattern spells
/// one literally.
pub open spec fn literal_suffix(pattern: Seq<u8>, syntax: Syntax) -> Option<Seq<u8>> {
    match extension(pattern, syntax) {
        Some(text) => if text.len() > 0 && forall|i: int|
            0 <= i < text.len() ==> !spoils_extension(#[trigger] text[i]) {
            Some(text)
        } else {
            None
        },
        None => None,
    }
}

/// Whether one of `root` and `path` is the other or contains it.
pub open spec fn one_line_of_descent(root: Seq<u8>, path: Seq<u8>) -> bool {
    ||| root == path
    ||| begins_with(root, path.push(SLASH))
    ||| begins_with(path, root.push(SLASH))
}

/// The byte strings a vector of byte vectors holds.
pub open spec fn contents(values: Seq<Vec<u8>>) -> Seq<Seq<u8>> {
    Seq::new(values.len(), |i: int| values[i]@)
}

/// Lexicographic order of byte strings.
pub open spec fn precedes(left: Seq<u8>, right: Seq<u8>) -> bool
    decreases left.len(),
{
    if right.len() == 0 {
        false
    } else if left.len() == 0 {
        true
    } else if left[0] != right[0] {
        left[0] < right[0]
    } else {
        precedes(left.drop_first(), right.drop_first())
    }
}

/// Whether `values` is in strictly ascending order.
pub open spec fn ascending(values: Seq<Seq<u8>>) -> bool {
    forall|i: int, j: int|
        0 <= i < j < values.len() ==> precedes(#[trigger] values[i], #[trigger] values[j])
}

/// `precedes` is a strict total order: it is transitive.
pub proof fn lemma_precedes_transitive(a: Seq<u8>, b: Seq<u8>, c: Seq<u8>)
    requires
        precedes(a, b),
        precedes(b, c),
    ensures
        precedes(a, c),
    decreases a.len(),
{
    if a.len() > 0 && a[0] == b[0] && b[0] == c[0] {
        lemma_precedes_transitive(a.drop_first(), b.drop_first(), c.drop_first());
    }
}

/// `precedes` is a strict total order: of two different strings exactly one
/// comes first, and none precedes itself.
pub proof fn lemma_precedes_total(a: Seq<u8>, b: Seq<u8>)
    ensures
        a != b ==> precedes(a, b) != precedes(b, a),
        !precedes(a, a),
    decreases a.len(),
{
    if a.len() > 0 {
        lemma_precedes_total(a.drop_first(), a.drop_first());
        if b.len() > 0 && a[0] == b[0] {
            lemma_precedes_total(a.drop_first(), b.drop_first());
            if a.drop_first() == b.drop_first() {
                assert(a =~= seq![a[0]] + a.drop_first());
                assert(b =~= seq![b[0]] + b.drop_first());
            }
        }
    } else if b.len() == 0 {
        assert(a =~= b);
    }
}

/// Whether the byte separates path components.
pub fn is_path_separator(byte: u8, syntax: Syntax) -> (result: bool)
    ensures
        result == separates(byte, syntax),
{
    byte == SLASH || (syntax == Syntax::Windows && byte == BACKSLASH)
}

fn closes(pattern: &[u8], open: usize, opener: u8, closer: u8) -> (result: bool)
    requires
        open <= pattern@.len(),
        opener != BACKSLASH,
        closer != BACKSLASH,
    ensures
        result == closes_from(pattern@, open as int, 0, opener, closer),
{
    let mut depth: usize = 0;
    let mut index: usize = open;
    while index < pattern.len()
        invariant
            depth <= index,
            opener != BACKSLASH,
            closer != BACKSLASH,
            closes_from(pattern@, open as int, 0, opener, closer) == closes_from(
                pattern@,
                index as int,
                depth as nat,
                opener,
                closer,
            ),
        decreases pattern.len() - index,
    {
        let byte: u8 = pattern[index];
        if byte == BACKSLASH {
            if index + 1 >= pattern.len() {
                return false;
            }
            index += 2;
        } else if byte == opener {
            depth += 1;
            index += 1;
        } else if byte == closer {
            if depth <= 1 {
                return true;
            }
            depth -= 1;
            index += 1;
        } else {
            index += 1;
        }
    }
    false
}

/// Whether the brace that opens at `open` is closed.
pub fn has_closing_brace(pattern: &[u8], open: usize) -> (result: bool)
    requires
        open <= pattern@.len(),
    ensures
        result == closes_from(pattern@, open as int, 0, BRACE_OPEN, BRACE_CLOSE),
{
    closes(pattern, open, BRACE_OPEN, BRACE_CLOSE)
}

/// Whether the parenthesis that opens at `open` is closed.
pub fn has_closing_parenthesis(pattern: &[u8], open: usize) -> (result: bool)
    requires
        open <= pattern@.len(),
    ensures
        result == closes_from(pattern@, open as int, 0, PAREN_OPEN, PAREN_CLOSE),
{
    closes(pattern, open, PAREN_OPEN, PAREN_CLOSE)
}

/// Offset of the first byte that stops the pattern from being a literal path.
pub fn first_metacharacter(pattern: &[u8]) -> (result: Option<usize>)
    ensures
        match result {
            Some(at) => metacharacter_from(pattern@, 0) == Some(at as int) && at < pattern@.len(),
            None => metacharacter_from(pattern@, 0) is None,
        },
{
    let mut index: usize = 0;
    while index < pattern.len()
        invariant
            index <= pattern.len(),
            metacharacter_from(pattern@, 0) == metacharacter_from(pattern@, index as int),
        decreases pattern.len() - index,
    {
        let byte: u8 = pattern[index];
        if byte == STAR || byte == QUESTION || byte == BRACKET_OPEN || byte == BACKSLASH {
            return Some(index);
        }
        if byte == BRACE_OPEN && has_closing_brace(pattern, index) {
            return Some(index);
        }
        if (byte == AT || byte == PLUS || byte == BANG) && index + 1 < pattern.len() && pattern[index
            + 1] == PAREN_OPEN && has_closing_parenthesis(pattern, index + 1) {
            return Some(index);
        }
        index += 1;
    }
    None
}

/// The directory every match of `pattern` lies in or is, where it proves one.
///
/// A literal that shares a component with a wildcard proves nothing about a
/// directory: `src*` selects inside `srcfoo` as readily as inside `src`. Only
/// what precedes the last separator is proven.
pub fn literal_pattern_root(pattern: &[u8]) -> (result: Option<Vec<u8>>)
    ensures
        match result {
            Some(root) => literal_root(pattern@) == Some(root@),
            None => literal_root(pattern@) is None,
        },
{
    match first_metacharacter(pattern) {
        None => if pattern.len() == 0 {
            None
        } else {
            Some(slice_to_vec(pattern))
        },
        Some(magic) => match last_position_before(pattern, SLASH, magic) {
            None => None,
            Some(at) => if at == 0 {
                None
            } else {
                assert(pattern@.subrange(0, at as int) =~= pattern@.take(at as int));
                Some(slice_to_vec(slice_subrange(pattern, 0, at)))
            },
        },
    }
}

/// What follows the last period of the last component of `path`.
pub fn final_extension(path: &[u8], syntax: Syntax) -> (result: Option<&[u8]>)
    ensures
        match result {
            Some(text) => extension(path@, syntax) == Some(text@),
            None => extension(path@, syntax) is None,
        },
{
    let mut start: usize = path.len();
    while start > 0 && !is_path_separator(path[start - 1], syntax)
        invariant
            start <= path.len(),
            name_start(path@, path@.len() as int, syntax) == name_start(
                path@,
                start as int,
                syntax,
            ),
        decreases start,
    {
        start -= 1;
    }
    let name = slice_subrange(path, start, path.len());
    assert(name@ =~= path@.skip(start as int));
    match last_position_before(name, DOT, name.len()) {
        None => None,
        Some(dot) => {
            let text = slice_subrange(name, dot + 1, name.len());
            assert(text@ =~= path@.skip(start + dot + 1));
            Some(text)
        },
    }
}

/// The extension every match of `pattern` ends in, where it spells one.
pub fn literal_extension(pattern: &[u8], syntax: Syntax) -> (result: Option<Vec<u8>>)
    ensures
        match result {
            Some(text) => literal_suffix(pattern@, syntax) == Some(text@),
            None => literal_suffix(pattern@, syntax) is None,
        },
{
    match final_extension(pattern, syntax) {
        None => None,
        Some(text) => {
            if text.len() == 0 {
                return None;
            }
            let mut i: usize = 0;
            while i < text.len()
                invariant
                    i <= text.len(),
                    extension(pattern@, syntax) == Some(text@),
                    forall|j: int| 0 <= j < i ==> !spoils_extension(#[trigger] text@[j]),
                decreases text.len() - i,
            {
                let byte: u8 = text[i];
                if byte == STAR || byte == QUESTION || byte == BRACKET_OPEN || byte
                    == BRACKET_CLOSE || byte == BRACE_OPEN || byte == BRACE_CLOSE || byte
                    == BACKSLASH || byte == PAREN_OPEN || byte == PAREN_CLOSE || byte == PIPE {
                    assert(spoils_extension(text@[i as int]));
                    return None;
                }
                i += 1;
            }
            Some(slice_to_vec(text))
        },
    }
}

/// Whether `path` is the literal root, or one of the two contains the other:
/// only then can something under `path` still match.
pub fn shares_a_line_of_descent(root: &[u8], path: &[u8]) -> (result: bool)
    ensures
        result == one_line_of_descent(root@, path@),
{
    same(root, path) || contains_below(root, path) || contains_below(path, root)
}

/// Whether `path` begins with `root` and a separator.
fn contains_below(path: &[u8], root: &[u8]) -> (result: bool)
    ensures
        result == begins_with(path@, root@.push(SLASH)),
{
    if path.len() <= root.len() {
        return false;
    }
    if path[root.len()] != SLASH {
        assert(path@.take(root@.len() as int + 1)[root@.len() as int] != root@.push(
            SLASH,
        )[root@.len() as int]);
        return false;
    }
    let result = starts_with(path, root);
    proof {
        let whole = path@.take(root@.len() as int + 1);
        if result {
            assert(whole =~= root@.push(SLASH));
        } else if whole == root@.push(SLASH) {
            assert(path@.take(root@.len() as int) =~= whole.drop_last());
            assert(root@.push(SLASH).drop_last() =~= root@);
        }
    }
    result
}

/// Whether `left` comes before `right`.
pub(crate) fn comes_before(left: &[u8], right: &[u8]) -> (result: bool)
    ensures
        result == precedes(left@, right@),
{
    let mut i: usize = 0;
    assert(left@.skip(0) =~= left@);
    assert(right@.skip(0) =~= right@);
    while i < left.len() && i < right.len()
        invariant
            i <= left.len(),
            i <= right.len(),
            precedes(left@, right@) == precedes(left@.skip(i as int), right@.skip(i as int)),
        decreases left.len() - i,
    {
        if left[i] != right[i] {
            return left[i] < right[i];
        }
        assert(left@.skip(i as int).drop_first() =~= left@.skip(i + 1));
        assert(right@.skip(i as int).drop_first() =~= right@.skip(i + 1));
        i += 1;
    }
    i < right.len()
}

/// Puts `value` where it belongs in the ascending `values`, unless it is there.
fn insert_in_order(values: &mut Vec<Vec<u8>>, value: Vec<u8>)
    requires
        ascending(contents(old(values)@)),
    ensures
        ascending(contents(final(values)@)),
        forall|x: Seq<u8>| #[trigger]
            contents(final(values)@).contains(x) <==> (contents(old(values)@).contains(x) || x
                == value@),
{
    let mut at: usize = 0;
    while at < values.len() && comes_before(values[at].as_slice(), value.as_slice())
        invariant
            at <= values.len(),
            values@ == old(values)@,
            forall|i: int| 0 <= i < at ==> precedes(#[trigger] contents(values@)[i], value@),
        decreases values.len() - at,
    {
        at += 1;
    }
    let ghost before = contents(values@);
    if at < values.len() && same(values[at].as_slice(), value.as_slice()) {
        assert(before[at as int] == value@);
        return;
    }
    proof {
        assert forall|i: int| at <= i < before.len() implies precedes(
            value@,
            #[trigger] before[i],
        ) by {
            lemma_precedes_total(before[at as int], value@);
            if at < i {
                lemma_precedes_transitive(value@, before[at as int], before[i]);
            }
        }
    }
    let ghost added = value@;
    values.insert(at, value);
    proof {
        let after = contents(values@);
        assert(after =~= before.insert(at as int, added));
        assert forall|i: int, j: int| 0 <= i < j < after.len() implies precedes(
            #[trigger] after[i],
            #[trigger] after[j],
        ) by {
            let left = if i < at {
                before[i]
            } else if i == at {
                added
            } else {
                before[i - 1]
            };
            let right = if j < at {
                before[j]
            } else if j == at {
                added
            } else {
                before[j - 1]
            };
            assert(after[i] == left);
            assert(after[j] == right);
        }
        assert forall|x: Seq<u8>| #[trigger] after.contains(x) implies before.contains(x) || x
            == added by {
            let i = choose|i: int| 0 <= i < after.len() && after[i] == x;
            if i < at {
                assert(before[i] == x);
            } else if i > at {
                assert(before[i - 1] == x);
            }
        }
        assert forall|x: Seq<u8>| before.contains(x) || x == added implies #[trigger]
        after.contains(x) by {
            if x == added {
                assert(after[at as int] == x);
            } else {
                let i = choose|i: int| 0 <= i < before.len() && before[i] == x;
                if i < at {
                    assert(after[i] == x);
                } else {
                    assert(after[i + 1] == x);
                }
            }
        }
    }
}

/// Whether every alternative has a value.
pub open spec fn every_alternative_has_one(values: Seq<Option<Vec<u8>>>) -> bool {
    values.len() > 0 && forall|i: int| 0 <= i < values.len() ==> (#[trigger] values[i]) is Some
}

/// Collects one prefilter value per brace alternative, or nothing as soon as
/// an alternative has none.
///
/// Pruning on a value that only some alternatives share would drop paths the
/// pattern still matches, so the filter is either complete or off. The values
/// come back in ascending order, each of them once.
pub fn prefilter_of_every_alternative(values: Vec<Option<Vec<u8>>>) -> (result: Option<
    Vec<Vec<u8>>,
>)
    ensures
        result is Some == every_alternative_has_one(values@),
        match result {
            Some(filter) => {
                &&& ascending(contents(filter@))
                &&& forall|x: Seq<u8>| #[trigger]
                    contents(filter@).contains(x) <==> exists|i: int|
                        0 <= i < values@.len() && (#[trigger] values@[i]).unwrap()@ == x
            },
            None => true,
        },
{
    if values.len() == 0 {
        return None;
    }
    let mut filter: Vec<Vec<u8>> = Vec::new();
    let mut i: usize = 0;
    while i < values.len()
        invariant
            i <= values.len(),
            forall|j: int| 0 <= j < i ==> (#[trigger] values@[j]) is Some,
            ascending(contents(filter@)),
            forall|x: Seq<u8>| #[trigger]
                contents(filter@).contains(x) <==> exists|j: int|
                    0 <= j < i && (#[trigger] values@[j]).unwrap()@ == x,
        decreases values.len() - i,
    {
        match &values[i] {
            None => {
                return None;
            },
            Some(value) => {
                let copy = slice_to_vec(value.as_slice());
                let ghost earlier = contents(filter@);
                insert_in_order(&mut filter, copy);
                proof {
                    assert forall|x: Seq<u8>| #[trigger]
                    contents(filter@).contains(x) <==> exists|j: int|
                        0 <= j < i + 1 && (#[trigger] values@[j]).unwrap()@ == x by {
                        if contents(filter@).contains(x) {
                            if x == copy@ {
                                assert(values@[i as int].unwrap()@ == x);
                            } else {
                                assert(earlier.contains(x));
                            }
                        }
                        if exists|j: int|
                            0 <= j < i + 1 && (#[trigger] values@[j]).unwrap()@ == x {
                            let j = choose|j: int|
                                0 <= j < i + 1 && (#[trigger] values@[j]).unwrap()@ == x;
                            if j < i {
                                assert(earlier.contains(x));
                            }
                        }
                    }
                }
            },
        }
        i += 1;
    }
    Some(filter)
}

/// Whether `text` holds a byte that separates path components.
pub open spec fn holds_separator(text: Seq<u8>, syntax: Syntax) -> bool {
    text.contains(SLASH) || (syntax == Syntax::Windows && text.contains(BACKSLASH))
}

proof fn lemma_name_start(path: Seq<u8>, until: int, syntax: Syntax)
    requires
        0 <= until <= path.len(),
    ensures
        0 <= name_start(path, until, syntax) <= until,
        name_start(path, until, syntax) > 0 ==> separates(
            path[name_start(path, until, syntax) - 1],
            syntax,
        ),
        forall|i: int|
            name_start(path, until, syntax) <= i < until ==> !separates(#[trigger] path[i], syntax),
    decreases until,
{
    if until > 0 && !separates(path[until - 1], syntax) {
        lemma_name_start(path, until - 1, syntax);
    }
}

/// An extension is what follows the last period of a path's last name: a path
/// that has one ends in a period and the extension, which holds neither a
/// period nor a separator, and a path has none exactly where a separator comes
/// behind every period in it.
pub proof fn law_an_extension_follows_the_last_period(path: Seq<u8>, syntax: Syntax)
    ensures
        match extension(path, syntax) {
            Some(text) => {
                &&& text.len() < path.len()
                &&& path[path.len() - text.len() - 1] == DOT
                &&& path.skip(path.len() - text.len()) == text
                &&& !text.contains(DOT)
                &&& !holds_separator(text, syntax)
            },
            None => forall|at: int|
                0 <= at < path.len() && #[trigger] path[at] == DOT ==> holds_separator(
                    path.skip(at),
                    syntax,
                ),
        },
{
    let start = name_start(path, path.len() as int, syntax);
    lemma_name_start(path, path.len() as int, syntax);
    let name = path.skip(start);
    lemma_last_index_before(name, DOT, name.len() as int);
    match last_index_before(name, DOT, name.len() as int) {
        Some(at) => {
            let text = path.skip(start + at + 1);
            assert(path[start + at] == name[at]);
            assert forall|i: int| 0 <= i < text.len() implies text[i] != DOT && !separates(
                text[i],
                syntax,
            ) by {
                assert(text[i] == name[at + 1 + i]);
                assert(text[i] == path[start + at + 1 + i]);
            }
        },
        None => {
            assert forall|at: int| 0 <= at < path.len() && #[trigger] path[at]
                == DOT implies holds_separator(path.skip(at), syntax) by {
                if at >= start {
                    assert(name[at - start] == DOT);
                }
                let rest = path.skip(at);
                assert(rest[start - 1 - at] == path[start - 1]);
                assert(rest.contains(path[start - 1]));
            }
        },
    }
}

/// A path has the extension `text` exactly where it ends in a period and
/// `text`, for every text that can be one.
pub proof fn law_an_extension_is_what_a_path_ends_in(path: Seq<u8>, text: Seq<u8>, syntax: Syntax)
    requires
        !text.contains(DOT),
        !holds_separator(text, syntax),
    ensures
        extension(path, syntax) == Some(text) <==> exists|front: Seq<u8>|
            path == #[trigger] front.push(DOT) + text,
{
    law_an_extension_follows_the_last_period(path, syntax);
    if extension(path, syntax) == Some(text) {
        let front = path.take(path.len() - text.len() - 1);
        assert(path =~= front.push(DOT) + text);
    }
    if exists|front: Seq<u8>| path == #[trigger] front.push(DOT) + text {
        let front = choose|front: Seq<u8>| path == #[trigger] front.push(DOT) + text;
        let at = front.len() as int;
        assert(path[at] == DOT);
        assert(path.skip(at + 1) =~= text);
        match extension(path, syntax) {
            Some(other) => {
                if other.len() < text.len() {
                    let i = text.len() - other.len() - 1;
                    assert(path[path.len() - other.len() - 1] == text[i]);
                    assert(text.contains(text[i]));
                } else if other.len() > text.len() {
                    let i = other.len() - text.len() - 1;
                    assert(other[i] == path[at]);
                    assert(other.contains(other[i]));
                }
            },
            None => {
                let rest = path.skip(at);
                let byte = if rest.contains(SLASH) {
                    SLASH
                } else {
                    BACKSLASH
                };
                let i = choose|i: int| 0 <= i < rest.len() && rest[i] == byte;
                assert(rest[0] == DOT);
                assert(text[i - 1] == byte);
                assert(text.contains(byte));
            },
        }
    }
}

/// A pattern's literal extension is what its text ends in behind its last
/// period, and there is one exactly where nothing in it is special.
pub proof fn law_a_literal_extension_is_spelled_out(
    front: Seq<u8>,
    text: Seq<u8>,
    syntax: Syntax,
)
    requires
        !text.contains(DOT),
        !holds_separator(text, syntax),
    ensures
        literal_suffix(front.push(DOT) + text, syntax) == (if text.len() > 0 && !text.contains(STAR)
            && !text.contains(QUESTION) && !text.contains(BRACKET_OPEN) && !text.contains(
            BRACKET_CLOSE,
        ) && !text.contains(BRACE_OPEN) && !text.contains(BRACE_CLOSE) && !text.contains(BACKSLASH)
            && !text.contains(PAREN_OPEN) && !text.contains(PAREN_CLOSE) && !text.contains(PIPE) {
            Some(text)
        } else {
            None
        }),
{
    let pattern = front.push(DOT) + text;
    law_an_extension_is_what_a_path_ends_in(pattern, text, syntax);
    if forall|i: int| 0 <= i < text.len() ==> !spoils_extension(#[trigger] text[i]) {
    } else {
        let i = choose|i: int| 0 <= i < text.len() && spoils_extension(#[trigger] text[i]);
        assert(text.contains(text[i]));
    }
}

/// A pattern whose last name has no period has no literal extension.
pub proof fn law_without_a_period_there_is_no_extension(pattern: Seq<u8>, syntax: Syntax)
    requires
        forall|at: int|
            0 <= at < pattern.len() && #[trigger] pattern[at] == DOT ==> holds_separator(
                pattern.skip(at),
                syntax,
            ),
    ensures
        extension(pattern, syntax) is None,
        literal_suffix(pattern, syntax) is None,
{
    law_an_extension_follows_the_last_period(pattern, syntax);
    if let Some(text) = extension(pattern, syntax) {
        let at = pattern.len() - text.len() - 1;
        assert(pattern[at] == DOT);
        let rest = pattern.skip(at);
        let byte = if rest.contains(SLASH) {
            SLASH
        } else {
            BACKSLASH
        };
        let i = choose|i: int| 0 <= i < rest.len() && rest[i] == byte;
        assert(rest[0] == DOT);
        assert(text[i - 1] == rest[i]);
        assert(text.contains(byte));
    }
}

/// Whether `text` holds none of the bytes that may be more than themselves in
/// a pattern.
pub open spec fn is_literal(text: Seq<u8>) -> bool {
    !text.contains(STAR) && !text.contains(QUESTION) && !text.contains(BRACKET_OPEN)
        && !text.contains(BACKSLASH) && !text.contains(BRACE_OPEN) && !text.contains(AT)
        && !text.contains(PLUS) && !text.contains(BANG)
}

proof fn lemma_metacharacter_from(pattern: Seq<u8>, from: int)
    requires
        0 <= from <= pattern.len(),
    ensures
        match metacharacter_from(pattern, from) {
            Some(at) => from <= at < pattern.len() && is_metacharacter_at(pattern, at)
                && forall|i: int| from <= i < at ==> !#[trigger] is_metacharacter_at(pattern, i),
            None => forall|i: int|
                from <= i < pattern.len() ==> !#[trigger] is_metacharacter_at(pattern, i),
        },
    decreases pattern.len() - from,
{
    if from < pattern.len() && !is_metacharacter_at(pattern, from) {
        lemma_metacharacter_from(pattern, from + 1);
    }
}

/// A literal root is the start of its pattern up to a separator, or all of it,
/// and holds no wildcard, no bracket and no escape.
pub proof fn law_a_literal_root_starts_its_pattern(pattern: Seq<u8>)
    ensures
        match literal_root(pattern) {
            Some(root) => {
                &&& root.len() > 0
                &&& begins_with(pattern, root)
                &&& root == pattern || pattern[root.len() as int] == SLASH
                &&& !root.contains(STAR) && !root.contains(QUESTION) && !root.contains(BRACKET_OPEN)
                    && !root.contains(BACKSLASH)
            },
            None => true,
        },
{
    lemma_metacharacter_from(pattern, 0);
    assert(pattern.take(pattern.len() as int) =~= pattern);
    if let Some(magic) = metacharacter_from(pattern, 0) {
        lemma_last_index_before(pattern, SLASH, magic);
    }
    if let Some(root) = literal_root(pattern) {
        assert(pattern.take(root.len() as int) =~= root);
        assert forall|i: int| 0 <= i < root.len() implies root[i] != STAR && root[i] != QUESTION
            && root[i] != BRACKET_OPEN && root[i] != BACKSLASH by {
            assert(!is_metacharacter_at(pattern, i));
            assert(root[i] == pattern[i]);
        }
    }
}

proof fn lemma_literal_start(text: Seq<u8>, pattern: Seq<u8>)
    requires
        is_literal(text),
        begins_with(pattern, text),
    ensures
        forall|i: int| 0 <= i < text.len() ==> !#[trigger] is_metacharacter_at(pattern, i),
{
    assert forall|i: int| 0 <= i < text.len() implies !#[trigger] is_metacharacter_at(
        pattern,
        i,
    ) by {
        assert(pattern[i] == pattern.take(text.len() as int)[i]);
        assert(text.contains(text[i]));
    }
}

/// The literal root of a pattern is the directory in front of the name with
/// its first wildcard: `dir/name*rest` lies in `dir`, `name*rest` anywhere, and
/// a pattern without any is its own root.
#[verifier::rlimit(40)]
pub proof fn law_a_literal_root_is_the_directory_of_the_first_wildcard(
    dir: Seq<u8>,
    name: Seq<u8>,
    wildcard: u8,
    rest: Seq<u8>,
)
    requires
        is_literal(dir),
        is_literal(name),
        !name.contains(SLASH),
        wildcard == STAR || wildcard == QUESTION || wildcard == BRACKET_OPEN,
    ensures
        literal_root(dir.push(SLASH) + name.push(wildcard) + rest) == (if dir.len() > 0 {
            Some(dir)
        } else {
            None
        }),
        literal_root(name.push(wildcard) + rest) is None,
        literal_root(dir) == (if dir.len() > 0 {
            Some(dir)
        } else {
            None
        }),
{
    let lone = name.push(wildcard) + rest;
    assert(lone.take(name.len() as int) =~= name);
    lemma_literal_start(name, lone);
    lemma_metacharacter_from(lone, 0);
    assert(lone[name.len() as int] == wildcard);
    assert(is_metacharacter_at(lone, name.len() as int));
    lemma_last_index_before(lone, SLASH, name.len() as int);
    assert forall|i: int| 0 <= i < name.len() implies lone[i] != SLASH by {
        assert(name.contains(name[i]));
    }

    assert(dir.take(dir.len() as int) =~= dir);
    lemma_literal_start(dir, dir);
    lemma_metacharacter_from(dir, 0);

    let front = dir.push(SLASH) + name;
    let whole = dir.push(SLASH) + name.push(wildcard) + rest;
    let magic = front.len() as int;
    assert(whole.take(magic) =~= front);
    assert(is_literal(front)) by {
        assert forall|i: int| 0 <= i < front.len() implies (i < dir.len() && front[i] == dir[i])
            || front[i] == SLASH || name.contains(front[i]) by {
            if i > dir.len() {
                assert(front[i] == name[i - dir.len() - 1]);
            }
        }
        assert forall|byte: u8| #[trigger] front.contains(byte) implies dir.contains(byte) || byte
            == SLASH || name.contains(byte) by {
            let i = choose|i: int| 0 <= i < front.len() && front[i] == byte;
            if i < dir.len() {
                assert(dir[i] == byte);
            } else if i > dir.len() {
                assert(name[i - dir.len() - 1] == byte);
            }
        }
    }
    lemma_literal_start(front, whole);
    lemma_metacharacter_from(whole, 0);
    assert(whole[magic] == wildcard);
    assert(is_metacharacter_at(whole, magic));
    lemma_last_index_before(whole, SLASH, magic);
    assert(whole[dir.len() as int] == SLASH);
    assert forall|i: int| dir.len() < i < magic implies whole[i] != SLASH by {
        assert(whole[i] == name[i - dir.len() - 1]);
        assert(name.contains(name[i - dir.len() - 1]));
    }
    assert(whole.take(dir.len() as int) =~= dir);
}

/// Two paths are on one line of descent exactly where they are equal or one
/// continues the other behind a separator.
pub proof fn law_a_line_of_descent_goes_by_whole_names(one: Seq<u8>, other: Seq<u8>, rest: Seq<u8>)
    ensures
        one_line_of_descent(one, other) == one_line_of_descent(other, one),
        one_line_of_descent(one, one + rest) == (rest.len() == 0 || rest[0] == SLASH),
        !begins_with(one, other) && !begins_with(other, one) ==> !one_line_of_descent(one, other),
{
    let longer = one + rest;
    if rest.len() == 0 {
        assert(longer =~= one);
    } else {
        let prefix = one.push(SLASH);
        if rest[0] == SLASH {
            assert(longer.take(prefix.len() as int) =~= prefix);
        } else {
            assert(longer.take(prefix.len() as int)[one.len() as int] == rest[0]);
            assert(prefix[one.len() as int] == SLASH);
        }
        assert(longer.len() != one.len());
    }
    assert(one.take(one.len() as int) =~= one);
    if begins_with(one, other.push(SLASH)) {
        assert(one.take(other.len() as int) =~= one.take(other.len() as int + 1).drop_last());
        assert(other.push(SLASH).drop_last() =~= other);
    }
    if begins_with(other, one.push(SLASH)) {
        assert(other.take(one.len() as int) =~= other.take(one.len() as int + 1).drop_last());
        assert(one.push(SLASH).drop_last() =~= one);
    }
}

} // verus!
