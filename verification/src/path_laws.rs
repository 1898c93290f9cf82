//! What holds of the names of paths, and of the order in which entries sort.
use vstd::prelude::*;

use crate::absolute::{
    after_component, component_at, lemma_component_in_prefix, lemma_named_components_shift,
    named_components, names_nothing, skip_noise,
};
use crate::bytes::{index_from, lemma_index_from, lemma_index_from_is, DOT, SLASH};
use crate::literal::{precedes, Syntax};
use crate::paths::{
    base_name, component_key, key_precedes, keys_from, leading_key, path_key, pushed, RANK_NAME,
};
use crate::volume::volume_length;

verus! {

/// The names of a path and of what is put behind it with a separator are the
/// names of the one and then those of the other.
pub proof fn law_names_come_one_after_the_other(path: Seq<u8>, tail: Seq<u8>)
    ensures
        named_components(path.push(SLASH) + tail, 0) == named_components(path, 0)
            + named_components(tail, 0),
{
    lemma_names_behind(path, tail, 0);
}

proof fn lemma_names_behind(path: Seq<u8>, tail: Seq<u8>, from: int)
    requires
        0 <= from <= path.len(),
    ensures
        named_components(path.push(SLASH) + tail, from) == named_components(path, from)
            + named_components(tail, 0),
    decreases path.len() - from,
{
    let whole = path.push(SLASH) + tail;
    let len = path.len() as int;
    let none = Seq::<Seq<u8>>::empty();
    let rest = named_components(tail, 0);
    assert(whole.skip(len + 1) =~= tail);
    lemma_named_components_shift(whole, len + 1, 0);
    assert(named_components(whole, len + 1) == rest);
    assert(named_components(path, len) =~= none);
    assert(none + rest =~= rest);
    lemma_component_in_prefix(path, tail, from);
    lemma_index_from(path, SLASH, from);
    let end = index_from(path, SLASH, from);
    let name = component_at(path, from);
    if from == len {
        assert(name =~= Seq::empty());
        lemma_names_of_noise(whole, from, len + 1);
    } else {
        let next = after_component(path, from);
        let other = after_component(whole, from);
        if end < len {
            lemma_names_behind(path, tail, end + 1);
        }
        if names_nothing(name) {
            assert(skip_noise(whole, from) == skip_noise(whole, other));
            assert(skip_noise(path, from) == skip_noise(path, next));
            lemma_names_of_noise(whole, from, other);
            lemma_names_of_noise(path, from, next);
        } else {
            assert(skip_noise(whole, from) == from);
            assert(skip_noise(path, from) == from);
            assert(named_components(whole, from) == seq![name] + named_components(whole, other));
            assert(named_components(path, from) == seq![name] + named_components(path, next));
            assert(seq![name] + (named_components(path, next) + rest) =~= seq![name]
                + named_components(path, next) + rest);
        }
    }
}

proof fn lemma_names_of_noise(path: Seq<u8>, from: int, next: int)
    requires
        0 <= from < path.len(),
        names_nothing(component_at(path, from)),
        next == after_component(path, from),
    ensures
        named_components(path, from) == named_components(path, next),
{
    lemma_index_from(path, SLASH, from);
    lemma_noise_goes_on(path, next);
    assert(skip_noise(path, from) == skip_noise(path, next));
}

proof fn lemma_noise_goes_on(path: Seq<u8>, from: int)
    requires
        0 <= from <= path.len(),
    ensures
        from <= skip_noise(path, from) <= path.len(),
    decreases path.len() - from,
{
    if from < path.len() {
        lemma_index_from(path, SLASH, from);
        if names_nothing(component_at(path, from)) {
            lemma_noise_goes_on(path, after_component(path, from));
        }
    }
}

/// Whether `name` can be the name of an entry.
pub open spec fn is_entry_name(name: Seq<u8>) -> bool {
    name.len() > 0 && !name.contains(SLASH) && name != seq![DOT] && name != seq![DOT, DOT]
}

proof fn lemma_one_name(name: Seq<u8>)
    requires
        name.len() > 0,
        !name.contains(SLASH),
        name != seq![DOT],
    ensures
        named_components(name, 0) == seq![name],
{
    assert forall|i: int| 0 <= i < name.len() implies name[i] != SLASH by {
        assert(name.contains(name[i]));
    }
    let len = name.len() as int;
    lemma_index_from_is(name, SLASH, 0, len);
    assert(component_at(name, 0) =~= name);
    assert(skip_noise(name, 0) == 0);
    assert(named_components(name, len) =~= Seq::empty());
    assert(named_components(name, 0) =~= seq![name]);
}

/// The last name of a path is the one put behind its last separator, a
/// separator at the end does not count, and what leads to a parent has none.
pub proof fn law_the_last_name_is_behind_the_last_separator(path: Seq<u8>, name: Seq<u8>)
    requires
        is_entry_name(name),
    ensures
        base_name(name, Syntax::Posix) == Some(name),
        base_name(path.push(SLASH) + name, Syntax::Posix) == Some(name),
        base_name((path.push(SLASH) + name).push(SLASH), Syntax::Posix) == Some(name),
        base_name(path.push(SLASH) + seq![DOT, DOT], Syntax::Posix) is None,
{
    let whole = path.push(SLASH) + name;
    let none = Seq::<u8>::empty();
    let parent = seq![DOT, DOT];
    lemma_one_name(name);
    law_names_come_one_after_the_other(path, name);
    law_names_come_one_after_the_other(whole, none);
    assert(whole.push(SLASH) + none =~= whole.push(SLASH));
    assert(named_components(none, 0) =~= Seq::empty());
    assert(named_components(whole, 0) + Seq::<Seq<u8>>::empty() =~= named_components(whole, 0));
    assert(!parent.contains(SLASH));
    assert(parent != seq![DOT]) by {
        assert(parent.len() != seq![DOT].len());
    }
    lemma_one_name(parent);
    law_names_come_one_after_the_other(path, parent);
}

proof fn lemma_key_behind(directory: Seq<u8>, tail: Seq<u8>)
    requires
        directory.len() > 0,
    ensures
        path_key(directory.push(SLASH) + tail, Syntax::Posix) == path_key(directory, Syntax::Posix)
            + keys_from(tail, 0),
{
    let whole = directory.push(SLASH) + tail;
    law_names_come_one_after_the_other(directory, tail);
    assert(volume_length(whole, Syntax::Posix) == 0);
    assert(volume_length(directory, Syntax::Posix) == 0);
    assert(whole[0] == directory[0]);
    if directory.len() > 1 {
        assert(whole[1] == directory[1]);
    } else {
        assert(whole[1] == SLASH);
    }
    assert(leading_key(whole, 0) == leading_key(directory, 0));
    assert(keys_from(whole, 0) =~= keys_from(directory, 0) + keys_from(tail, 0));
    assert(path_key(whole, Syntax::Posix) =~= path_key(directory, Syntax::Posix) + keys_from(
        tail,
        0,
    ));
}

proof fn lemma_key_of_name(name: Seq<u8>)
    requires
        is_entry_name(name),
    ensures
        keys_from(name, 0) == seq![seq![RANK_NAME] + name],
{
    lemma_one_name(name);
    assert(keys_from(name, 0) =~= seq![component_key(name)]);
}

proof fn lemma_keys_alike(common: Seq<Seq<u8>>, left: Seq<Seq<u8>>, right: Seq<Seq<u8>>)
    ensures
        key_precedes(common + left, common + right) == key_precedes(left, right),
    decreases common.len(),
{
    if common.len() == 0 {
        assert(common + left =~= left);
        assert(common + right =~= right);
    } else {
        let rest = common.drop_first();
        assert((common + left).drop_first() =~= rest + left);
        assert((common + right).drop_first() =~= rest + right);
        lemma_keys_alike(rest, left, right);
    }
}

/// A directory sorts before what it contains.
pub proof fn law_a_directory_comes_before_its_contents(directory: Seq<u8>, name: Seq<u8>)
    requires
        directory.len() > 0,
        is_entry_name(name),
    ensures
        key_precedes(
            path_key(directory, Syntax::Posix),
            path_key(directory.push(SLASH) + name, Syntax::Posix),
        ),
        !key_precedes(
            path_key(directory.push(SLASH) + name, Syntax::Posix),
            path_key(directory, Syntax::Posix),
        ),
{
    let key = path_key(directory, Syntax::Posix);
    let none = Seq::<Seq<u8>>::empty();
    lemma_key_behind(directory, name);
    lemma_key_of_name(name);
    let own = keys_from(name, 0);
    assert(key + none =~= key);
    lemma_keys_alike(key, none, own);
    lemma_keys_alike(key, own, none);
}

/// Entries of one directory sort by the bytes of their names, and everything
/// below the first comes before the second.
pub proof fn law_siblings_sort_by_their_bytes_with_their_contents(
    directory: Seq<u8>,
    one: Seq<u8>,
    other: Seq<u8>,
    tail: Seq<u8>,
)
    requires
        directory.len() > 0,
        is_entry_name(one),
        is_entry_name(other),
    ensures
        ({
            let left = directory.push(SLASH) + one;
            let right = directory.push(SLASH) + other;
            &&& key_precedes(path_key(left, Syntax::Posix), path_key(right, Syntax::Posix))
                == precedes(one, other)
            &&& precedes(one, other) ==> key_precedes(
                path_key(left.push(SLASH) + tail, Syntax::Posix),
                path_key(right, Syntax::Posix),
            )
        }),
{
    let left = directory.push(SLASH) + one;
    let right = directory.push(SLASH) + other;
    let key = path_key(directory, Syntax::Posix);
    lemma_key_behind(directory, one);
    lemma_key_behind(directory, other);
    lemma_key_of_name(one);
    lemma_key_of_name(other);
    let a = seq![RANK_NAME] + one;
    let b = seq![RANK_NAME] + other;
    lemma_keys_alike(key, seq![a], seq![b]);
    law_bytes_sort_one_by_one(seq![RANK_NAME], one, other);
    assert(seq![a].drop_first() =~= Seq::<Seq<u8>>::empty());
    assert(seq![b].drop_first() =~= Seq::<Seq<u8>>::empty());
    if one == other {
        lemma_nothing_precedes_itself(one);
    } else {
        assert(a != b) by {
            assert(a.drop_first() =~= one);
            assert(b.drop_first() =~= other);
        }
    }
    assert(path_key(left, Syntax::Posix) == key + seq![a]);
    assert(path_key(right, Syntax::Posix) == key + seq![b]);
    assert(key_precedes(seq![a], seq![b]) == precedes(one, other)) by {
        assert(seq![a][0] == a && seq![b][0] == b);
        reveal_with_fuel(key_precedes, 2);
        if one == other {
            assert(a == b);
        }
    }
    lemma_key_behind(left, tail);
    let rest = keys_from(tail, 0);
    assert(key + seq![a] + rest =~= key + (seq![a] + rest));
    lemma_keys_alike(key, seq![a] + rest, seq![b]);
    if precedes(one, other) {
        assert((seq![a] + rest)[0] == a);
        lemma_nothing_precedes_itself(one);
        assert(one != other);
        assert(seq![b][0] == b);
        assert(key_precedes(seq![a] + rest, seq![b]));
    }
}

proof fn lemma_nothing_precedes_itself(bytes: Seq<u8>)
    ensures
        !precedes(bytes, bytes),
    decreases bytes.len(),
{
    if bytes.len() > 0 {
        lemma_nothing_precedes_itself(bytes.drop_first());
    }
}

/// Byte strings sort by the first byte in which they differ, and one that ends
/// where the other goes on comes first.
pub proof fn law_bytes_sort_one_by_one(common: Seq<u8>, left: Seq<u8>, right: Seq<u8>)
    ensures
        precedes(common + left, common + right) == precedes(left, right),
        left.len() > 0 && right.len() > 0 && left[0] != right[0] ==> precedes(left, right) == (
        left[0] < right[0]),
        precedes(common, common + right) == (right.len() > 0),
        !precedes(common + right, common),
    decreases common.len(),
{
    if common.len() == 0 {
        assert(common + left =~= left);
        assert(common + right =~= right);
    } else {
        let rest = common.drop_first();
        assert((common + left).drop_first() =~= rest + left);
        assert((common + right).drop_first() =~= rest + right);
        law_bytes_sort_one_by_one(rest, left, right);
    }
}

/// A name is pushed behind exactly one separator, and onto nothing as it is.
pub proof fn law_a_name_goes_behind_one_separator(directory: Seq<u8>, name: Seq<u8>)
    ensures
        pushed(Seq::empty(), name, Syntax::Posix) == name,
        directory.len() > 0 && directory.last() != SLASH ==> pushed(
            directory,
            name,
            Syntax::Posix,
        ) == directory.push(SLASH) + name,
        pushed(directory.push(SLASH), name, Syntax::Posix) == directory.push(SLASH) + name,
{
    assert(Seq::<u8>::empty() + name =~= name);
}

} // verus!
