//! What holds of patterns that are read for a root.
use vstd::prelude::*;

use crate::absolute::{
    absolute_length, after_component, component_at, components_agree, named_components,
    parent_component_from, path_shape, path_shaped_from, skip_noise, strip_names,
};
use crate::bytes::{
    begins_with, index_from, is_alphabetic, is_digit, lemma_index_from, lemma_index_from_is,
    BACKSLASH, COLON, DOT, SLASH,
};
use crate::literal::{is_literal, is_metacharacter_at, metacharacter_from, Syntax};
use crate::path_laws::is_entry_name;
use crate::pattern::{reading, Reading};

verus! {

/// A path is absolute where it starts with a separator, and on Windows where it
/// starts with two, or with a drive and a separator.
pub proof fn law_what_makes_a_path_absolute(path: Seq<u8>)
    ensures
        absolute_length(path, Syntax::Posix) is Some <==> path.len() > 0 && path[0] == SLASH,
        absolute_length(path, Syntax::Windows) is Some <==> begins_with(path, seq![SLASH, SLASH])
            || (path.len() >= 3 && is_alphabetic(path[0]) && path[1] == COLON && path[2] == SLASH),
{
    if path.len() >= 2 && path[0] == SLASH && path[1] == SLASH {
        assert(path.take(2) =~= seq![SLASH, SLASH]);
    }
    if begins_with(path, seq![SLASH, SLASH]) {
        assert(path[0] == path.take(2)[0]);
        assert(path[1] == path.take(2)[1]);
    }
}

/// A pattern that is not absolute is read as it stands, whatever the root.
pub proof fn law_a_relative_pattern_is_read_as_it_stands(pattern: Seq<u8>, root: Seq<u8>)
    requires
        pattern.len() > 0 ==> pattern[0] != SLASH,
    ensures
        reading(pattern, root, Syntax::Posix) == (Reading::Text {
            bytes: pattern,
            source_start: 0,
        }),
{
}

/// An absolute pattern cannot be read for a root that is not.
pub proof fn law_an_absolute_pattern_needs_an_absolute_root(pattern: Seq<u8>, root: Seq<u8>)
    requires
        pattern.len() > 0 && pattern[0] == SLASH,
        root.len() > 0 ==> root[0] != SLASH,
    ensures
        reading(pattern, root, Syntax::Posix) is Refused,
{
}

proof fn lemma_parent_found(path: Seq<u8>, from: int, at: int)
    requires
        0 <= from <= at < path.len(),
        at == 0 || path[at - 1] == SLASH,
        component_at(path, at) == seq![DOT, DOT],
    ensures
        parent_component_from(path, from) is Some,
    decreases at - from,
{
    if component_at(path, from) != seq![DOT, DOT] {
        lemma_index_from(path, SLASH, from);
        let end = index_from(path, SLASH, from);
        assert(from < at);
        assert(end <= at - 1) by {
            if end > at - 1 {
                assert(path[at - 1] != SLASH);
            }
        }
        assert(after_component(path, from) == end + 1);
        lemma_parent_found(path, end + 1, at);
    }
}

/// An absolute pattern with a component that leads to a parent is refused,
/// because where it leads is not to be told from its spelling.
pub proof fn law_a_parent_in_an_absolute_pattern_is_refused(
    front: Seq<u8>,
    rest: Seq<u8>,
    root: Seq<u8>,
)
    requires
        front.len() > 0 && front[0] == SLASH,
        rest.len() > 0 ==> rest[0] == SLASH,
        root.len() > 0 && root[0] == SLASH,
    ensures
        reading(front.push(SLASH) + seq![DOT, DOT] + rest, root, Syntax::Posix) is Refused,
{
    let pattern = front.push(SLASH) + seq![DOT, DOT] + rest;
    let at = front.len() as int + 1;
    assert(pattern[at - 1] == SLASH);
    assert(pattern[at] == DOT && pattern[at + 1] == DOT);
    assert(rest.len() > 0 ==> pattern[at + 2] == rest[0]);
    lemma_index_from_is(pattern, SLASH, at, at + 2);
    assert(component_at(pattern, at) =~= seq![DOT, DOT]);
    lemma_parent_found(pattern, 0, at);
    assert(pattern[0] == SLASH);
    assert(pattern.take(1) =~= seq![SLASH]);
    assert(root.take(1) =~= seq![SLASH]);
}

/// The names of a root that is one directory below the top.
proof fn lemma_names_of_top(name: Seq<u8>)
    requires
        is_entry_name(name),
    ensures
        named_components(seq![SLASH] + name, 1) == seq![name],
{
    let path = seq![SLASH] + name;
    let len = path.len() as int;
    assert forall|i: int| 1 <= i < len implies path[i] != SLASH by {
        assert(path[i] == name[i - 1]);
        assert(name.contains(name[i - 1]));
    }
    lemma_index_from_is(path, SLASH, 1, len);
    assert(component_at(path, 1) =~= name);
    assert(skip_noise(path, 1) == 1);
    assert(named_components(path, len) =~= Seq::empty());
    assert(named_components(path, 1) =~= seq![name]);
}

proof fn lemma_first_component(name: Seq<u8>, rest: Seq<u8>)
    requires
        is_entry_name(name),
        rest.len() > 0 ==> rest[0] == SLASH,
    ensures
        ({
            let path = seq![SLASH] + name + rest;
            &&& component_at(path, 1) == name
            &&& skip_noise(path, 1) == 1
            &&& after_component(path, 1) == (if rest.len() > 0 {
                name.len() as int + 2
            } else {
                path.len() as int
            })
        }),
{
    let path = seq![SLASH] + name + rest;
    let end = name.len() as int + 1;
    assert forall|i: int| 1 <= i < end implies path[i] != SLASH by {
        assert(path[i] == name[i - 1]);
        assert(name.contains(name[i - 1]));
    }
    assert(end < path.len() ==> path[end] == rest[0]);
    lemma_index_from_is(path, SLASH, 1, end);
    assert(component_at(path, 1) =~= name);
}

proof fn lemma_no_metacharacter_before(pattern: Seq<u8>, from: int, end: int)
    requires
        0 <= from <= end <= pattern.len(),
        forall|i: int| from <= i < end ==> !#[trigger] is_metacharacter_at(pattern, i),
    ensures
        match metacharacter_from(pattern, from) {
            Some(at) => at >= end,
            None => true,
        },
    decreases end - from,
{
    if from < end {
        assert(!is_metacharacter_at(pattern, from));
        lemma_no_metacharacter_before(pattern, from + 1, end);
    } else {
        lemma_metacharacter_at_or_after(pattern, from);
    }
}

proof fn lemma_metacharacter_at_or_after(pattern: Seq<u8>, from: int)
    requires
        0 <= from <= pattern.len(),
    ensures
        match metacharacter_from(pattern, from) {
            Some(at) => from <= at,
            None => true,
        },
    decreases pattern.len() - from,
{
    if from < pattern.len() && !is_metacharacter_at(pattern, from) {
        lemma_metacharacter_at_or_after(pattern, from + 1);
    }
}

proof fn lemma_literal_component(name: Seq<u8>, rest: Seq<u8>)
    requires
        is_literal(name),
        !name.contains(SLASH),
    ensures
        ({
            let pattern = seq![SLASH] + name + rest;
            match metacharacter_from(pattern, 0) {
                Some(at) => at >= 1 + name.len(),
                None => true,
            }
        }),
{
    let pattern = seq![SLASH] + name + rest;
    assert forall|i: int| 0 <= i < 1 + name.len() implies !#[trigger] is_metacharacter_at(
        pattern,
        i,
    ) by {
        if i > 0 {
            assert(pattern[i] == name[i - 1]);
            assert(name.contains(name[i - 1]));
        } else {
            assert(pattern[i] == SLASH);
        }
    }
    lemma_no_metacharacter_before(pattern, 0, 1 + name.len() as int);
}

/// An absolute pattern that names another directory than the root's is about
/// another tree. One that names the root and what is inside it is read as what
/// is inside, and one that names the root alone is refused.
#[verifier::rlimit(40)]
pub proof fn law_an_absolute_pattern_is_read_inside_its_root(
    root: Seq<u8>,
    other: Seq<u8>,
    inside: Seq<u8>,
)
    requires
        is_entry_name(root),
        is_literal(root),
        is_entry_name(other),
        is_literal(other),
        root != other,
        is_entry_name(inside),
    ensures
        ({
            let top = seq![SLASH] + root;
            &&& reading(seq![SLASH] + other.push(SLASH) + inside, top, Syntax::Posix) is Outside
            &&& reading(seq![SLASH] + other, top, Syntax::Posix) is Outside
            &&& reading(seq![SLASH] + root.push(SLASH) + inside, top, Syntax::Posix) == (
            Reading::Text { bytes: inside, source_start: root.len() as int + 2 })
            &&& reading(seq![SLASH] + root, top, Syntax::Posix) is Refused
        }),
{
    let top = seq![SLASH] + root;
    let none = Seq::<u8>::empty();
    let tail = seq![SLASH] + inside;
    lemma_names_of_top(root);
    assert(top.take(1) =~= seq![SLASH]);

    let elsewhere = seq![SLASH] + other.push(SLASH) + inside;
    assert(elsewhere =~= seq![SLASH] + other + tail);
    lemma_first_component(other, tail);
    lemma_literal_component(other, tail);
    lemma_no_parent(other, inside);
    assert(elsewhere.take(1) =~= seq![SLASH]);
    reveal_with_fuel(strip_names, 2);
    assert(components_agree(other, root, 0, false) == (other == root));
    assert(reading(elsewhere, top, Syntax::Posix) is Outside);

    let lone = seq![SLASH] + other;
    assert(lone =~= seq![SLASH] + other + none);
    lemma_first_component(other, none);
    lemma_literal_component(other, none);
    lemma_no_parent_alone(other);
    assert(lone.take(1) =~= seq![SLASH]);
    assert(reading(lone, top, Syntax::Posix) is Outside);

    let within = seq![SLASH] + root.push(SLASH) + inside;
    assert(within =~= seq![SLASH] + root + tail);
    lemma_first_component(root, tail);
    lemma_literal_component(root, tail);
    lemma_no_parent(root, inside);
    assert(within.take(1) =~= seq![SLASH]);
    let at = root.len() as int + 2;
    lemma_last_component(seq![SLASH] + root, inside);
    assert(within =~= (seq![SLASH] + root).push(SLASH) + inside);
    assert(skip_noise(within, at) == at);
    assert(within.skip(at) =~= inside);
    assert(reading(within, top, Syntax::Posix) == (Reading::Text {
        bytes: inside,
        source_start: at,
    }));

    assert(top =~= seq![SLASH] + root + none);
    lemma_first_component(root, none);
    lemma_literal_component(root, none);
    lemma_no_parent_alone(root);
    assert(skip_noise(top, top.len() as int) == top.len());
    assert(reading(top, top, Syntax::Posix) is Refused);
}

/// The component behind the last separator of a path.
proof fn lemma_last_component(front: Seq<u8>, name: Seq<u8>)
    requires
        is_entry_name(name),
    ensures
        ({
            let path = front.push(SLASH) + name;
            let at = front.len() as int + 1;
            &&& component_at(path, at) == name
            &&& skip_noise(path, at) == at
            &&& after_component(path, at) == path.len()
        }),
{
    let path = front.push(SLASH) + name;
    let at = front.len() as int + 1;
    let len = path.len() as int;
    assert forall|i: int| at <= i < len implies path[i] != SLASH by {
        assert(path[i] == name[i - at]);
        assert(name.contains(name[i - at]));
    }
    lemma_index_from_is(path, SLASH, at, len);
    assert(component_at(path, at) =~= name);
}

proof fn lemma_no_parent(name: Seq<u8>, inside: Seq<u8>)
    requires
        is_entry_name(name),
        is_entry_name(inside),
    ensures
        parent_component_from(seq![SLASH] + name.push(SLASH) + inside, 0) is None,
{
    let path = seq![SLASH] + name.push(SLASH) + inside;
    let tail = seq![SLASH] + inside;
    assert(path =~= seq![SLASH] + name + tail);
    lemma_first_component(name, tail);
    lemma_last_component(seq![SLASH] + name, inside);
    assert(path =~= (seq![SLASH] + name).push(SLASH) + inside);
    assert(path[0] == SLASH);
    assert(index_from(path, SLASH, 0) == 0);
    assert(component_at(path, 0) =~= Seq::<u8>::empty());
    assert(component_at(path, 0) != seq![DOT, DOT]) by {
        assert(component_at(path, 0).len() != seq![DOT, DOT].len());
    }
    let at = name.len() as int + 2;
    assert(parent_component_from(path, path.len() as int) is None);
    assert(parent_component_from(path, at) is None);
    assert(parent_component_from(path, 1) is None);
    assert(after_component(path, 0) == 1);
}

proof fn lemma_no_parent_alone(name: Seq<u8>)
    requires
        is_entry_name(name),
    ensures
        parent_component_from(seq![SLASH] + name, 0) is None,
{
    let path = seq![SLASH] + name;
    let none = Seq::<u8>::empty();
    assert(path =~= seq![SLASH] + name + none);
    lemma_first_component(name, none);
    assert(path[0] == SLASH);
    assert(index_from(path, SLASH, 0) == 0);
    assert(component_at(path, 0) =~= Seq::<u8>::empty());
    assert(component_at(path, 0) != seq![DOT, DOT]) by {
        assert(component_at(path, 0).len() != seq![DOT, DOT].len());
    }
    assert(parent_component_from(path, path.len() as int) is None);
    assert(parent_component_from(path, 1) is None);
    assert(after_component(path, 0) == 1);
}

/// On hosts other than Windows no pattern is taken for a path. On Windows one
/// is that opens with a drive and a backslash, or that has a colon behind
/// ordinary text of more than a letter, and none without a colon and a
/// backslash is.
pub proof fn law_what_is_taken_for_a_windows_path(
    pattern: Seq<u8>,
    letter: u8,
    name: Seq<u8>,
    rest: Seq<u8>,
)
    requires
        is_alphabetic(letter),
        name.len() >= 2,
        forall|i: int|
            0 <= i < name.len() ==> is_alphabetic(#[trigger] name[i]) || is_digit(name[i]),
    ensures
        path_shape(pattern, Syntax::Posix) is None,
        path_shape(seq![letter, COLON, BACKSLASH] + rest, Syntax::Windows) == Some(0int),
        path_shape(name.push(COLON) + rest, Syntax::Windows) == Some(name.len() as int),
        !pattern.contains(COLON) && !pattern.contains(BACKSLASH) ==> path_shape(
            pattern,
            Syntax::Windows,
        ) is None,
{
    let drive = seq![letter, COLON, BACKSLASH] + rest;
    assert(drive[0] == letter && drive[1] == COLON && drive[2] == BACKSLASH);
    let colon = name.push(COLON) + rest;
    assert(colon[1] == name[1]);
    assert(is_alphabetic(name[1]) || is_digit(name[1]));
    lemma_colon_found(colon, name, 0);
    if !pattern.contains(COLON) && !pattern.contains(BACKSLASH) {
        lemma_no_path_shape(pattern, 0);
        assert(pattern.len() >= 2 ==> pattern.contains(pattern[1]));
    }
}

proof fn lemma_colon_found(pattern: Seq<u8>, name: Seq<u8>, from: int)
    requires
        name.len() >= 2,
        0 <= from <= name.len() < pattern.len(),
        forall|i: int| 0 <= i < name.len() ==> #[trigger] pattern[i] == name[i],
        forall|i: int|
            0 <= i < name.len() ==> is_alphabetic(#[trigger] name[i]) || is_digit(name[i]),
        pattern[name.len() as int] == COLON,
    ensures
        path_shaped_from(pattern, from) == Some(name.len() as int),
    decreases name.len() - from,
{
    if from < name.len() {
        assert(pattern[from] == name[from]);
        assert(is_alphabetic(name[from]) || is_digit(name[from]));
        lemma_colon_found(pattern, name, from + 1);
    }
}

proof fn lemma_no_path_shape(pattern: Seq<u8>, from: int)
    requires
        0 <= from <= pattern.len(),
        !pattern.contains(COLON),
        !pattern.contains(BACKSLASH),
    ensures
        path_shaped_from(pattern, from) is None,
    decreases pattern.len() - from,
{
    if from < pattern.len() {
        assert(pattern.contains(pattern[from]));
        lemma_no_path_shape(pattern, from + 1);
    }
}

} // verus!
