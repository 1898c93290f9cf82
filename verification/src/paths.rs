//! Slash-separated paths: their names, their order, and sorting entries by it.
use std::collections::VecDeque;

use vstd::prelude::*;
use vstd::seq_lib::group_to_multiset_ensures;
use vstd::slice::slice_to_vec;

use crate::absolute::{
    component_at, is_parent, named_components, next_component, next_named, skip_noise,
};
use crate::bytes::{append, DOT, SLASH};
use crate::literal::{
    comes_before, contents, is_path_separator, lemma_precedes_total, lemma_precedes_transitive,
    precedes, separates, Syntax,
};
use crate::options::{entries_of, Entry, WalkEntry};
use crate::volume::{
    bare_drive, is_bare_drive, volume_key, volume_key_of, volume_length, volume_of,
};

verus! {

/// A path as patterns read it: every separator of the host's is a slash.
pub open spec fn slashed(path: Seq<u8>, syntax: Syntax) -> Seq<u8> {
    path.map_values(
        |byte: u8|
            if separates(byte, syntax) {
                SLASH
            } else {
                byte
            },
    )
}

/// The bytes of a path with `/` separators on every host, as the byte-oriented
/// pattern language has them.
pub fn glob_bytes(bytes: &[u8], syntax: Syntax) -> (result: Vec<u8>)
    ensures
        result@ == slashed(bytes@, syntax),
{
    let mut path: Vec<u8> = Vec::new();
    let mut i: usize = 0;
    while i < bytes.len()
        invariant
            i <= bytes.len(),
            path@ == slashed(bytes@, syntax).take(i as int),
        decreases bytes.len() - i,
    {
        let byte: u8 = if is_path_separator(bytes[i], syntax) {
            SLASH
        } else {
            bytes[i]
        };
        path.push(byte);
        i += 1;
    }
    assert(path@ =~= slashed(bytes@, syntax));
    path
}

/// `directory` with `name` pushed onto it. A separator goes between the two
/// unless the directory ends with one, is empty, or is a bare drive.
pub open spec fn pushed(directory: Seq<u8>, name: Seq<u8>, syntax: Syntax) -> Seq<u8> {
    if directory.len() == 0 || directory.last() == SLASH || is_bare_drive(directory, syntax) {
        directory + name
    } else {
        directory.push(SLASH) + name
    }
}

/// How many bytes of a path that was pushed onto `directory` come before its
/// name.
pub open spec fn pushed_start(directory: Seq<u8>, syntax: Syntax) -> int {
    if directory.len() == 0 || directory.last() == SLASH || is_bare_drive(directory, syntax) {
        directory.len() as int
    } else {
        directory.len() as int + 1
    }
}

/// What is pushed onto a root stands behind a start that only the root decides,
/// however many names follow.
pub proof fn law_the_start_depends_on_the_root_alone(root: Seq<u8>, name: Seq<u8>, syntax: Syntax)
    ensures
        pushed(root, name, syntax).skip(pushed_start(root, syntax)) == name,
        pushed(root, name, syntax).len() == pushed_start(root, syntax) + name.len(),
{
    assert(pushed(root, name, syntax).skip(pushed_start(root, syntax)) =~= name);
}

/// Pushes `name` onto `directory`.
pub fn push_name(directory: &[u8], name: &[u8], syntax: Syntax) -> (result: Vec<u8>)
    ensures
        result@ == pushed(directory@, name@, syntax),
{
    let mut path = slice_to_vec(directory);
    if directory.len() > 0 && directory[directory.len() - 1] != SLASH && !bare_drive(
        directory,
        syntax,
    ) {
        path.push(SLASH);
    }
    append(&mut path, name);
    path
}

/// The last name of a path. A path that ends in its root or in `..` has none.
pub open spec fn base_name(path: Seq<u8>, syntax: Syntax) -> Option<Seq<u8>> {
    let names = named_components(path, volume_length(path, syntax));
    if names.len() == 0 || names.last() == seq![DOT, DOT] {
        None
    } else {
        Some(names.last())
    }
}

/// The last name of a path, if it has one.
pub fn basename(path: &[u8], syntax: Syntax) -> (result: Option<&[u8]>)
    ensures
        match result {
            Some(name) => base_name(path@, syntax) == Some(name@),
            None => base_name(path@, syntax) is None,
        },
{
    let start = volume_of(path, syntax);
    let mut at = next_named(path, start);
    if at >= path.len() {
        return None;
    }
    let (mut name, mut next) = next_component(path, at);
    let ghost whole = named_components(path@, start as int);
    proof {
        assert(whole =~= seq![component_at(path@, at as int)] + named_components(
            path@,
            next as int,
        ));
        lemma_last_of(seq![name@], named_components(path@, next as int));
    }
    at = next_named(path, next);
    while at < path.len()
        invariant
            next <= at <= path@.len(),
            at == skip_noise(path@, next as int),
            whole == named_components(path@, start as int),
            whole.len() > 0,
            ({
                let rest = named_components(path@, next as int);
                whole.last() == (if rest.len() == 0 {
                    name@
                } else {
                    rest.last()
                })
            }),
        decreases path@.len() - at,
    {
        let ghost rest = named_components(path@, next as int);
        let (found, after) = next_component(path, at);
        proof {
            assert(rest =~= seq![found@] + named_components(path@, after as int));
            lemma_last_of(seq![found@], named_components(path@, after as int));
        }
        name = found;
        next = after;
        at = next_named(path, next);
    }
    if is_parent(name) {
        None
    } else {
        Some(name)
    }
}

proof fn lemma_last_of(head: Seq<Seq<u8>>, rest: Seq<Seq<u8>>)
    requires
        head.len() > 0,
    ensures
        (head + rest).last() == (if rest.len() == 0 {
            head.last()
        } else {
            rest.last()
        }),
{
}

/// Ranks of the kinds of component, in the order they sort.
pub const RANK_ROOT: u8 = 1;

pub const RANK_CURRENT: u8 = 2;

pub const RANK_PARENT: u8 = 3;

pub const RANK_NAME: u8 = 4;

/// What a named component sorts by: its kind, then its bytes.
pub open spec fn component_key(component: Seq<u8>) -> Seq<u8> {
    if component == seq![DOT, DOT] {
        seq![RANK_PARENT]
    } else {
        seq![RANK_NAME] + component
    }
}

/// The components from `from` on, as they sort.
pub open spec fn keys_from(path: Seq<u8>, from: int) -> Seq<Seq<u8>> {
    named_components(path, from).map_values(|component: Seq<u8>| component_key(component))
}

/// What stands in front of a path's names, behind its drive or share: its root,
/// or a leading `.`.
pub open spec fn leading_key(path: Seq<u8>, from: int) -> Seq<Seq<u8>> {
    if path.len() > from && path[from] == SLASH {
        seq![seq![RANK_ROOT]]
    } else if path.len() > from && path[from] == DOT && (path.len() == from + 1 || path[from + 1]
        == SLASH) {
        seq![seq![RANK_CURRENT]]
    } else {
        Seq::empty()
    }
}

/// What a path sorts by: its drive or share, and then its components, one by
/// one, so that a directory's contents stay together.
pub open spec fn path_key(path: Seq<u8>, syntax: Syntax) -> Seq<Seq<u8>> {
    let from = volume_length(path, syntax);
    volume_key(path, syntax) + leading_key(path, from) + keys_from(path, from)
}

/// Whether one key sorts before another.
pub open spec fn key_precedes(left: Seq<Seq<u8>>, right: Seq<Seq<u8>>) -> bool
    decreases left.len(),
{
    if right.len() == 0 {
        false
    } else if left.len() == 0 {
        true
    } else if left[0] != right[0] {
        precedes(left[0], right[0])
    } else {
        key_precedes(left.drop_first(), right.drop_first())
    }
}

proof fn lemma_key_precedes_transitive(a: Seq<Seq<u8>>, b: Seq<Seq<u8>>, c: Seq<Seq<u8>>)
    requires
        key_precedes(a, b),
        key_precedes(b, c),
    ensures
        key_precedes(a, c),
    decreases a.len(),
{
    if a.len() > 0 {
        if a[0] == b[0] && b[0] == c[0] {
            lemma_key_precedes_transitive(a.drop_first(), b.drop_first(), c.drop_first());
        } else if a[0] != b[0] && b[0] != c[0] {
            lemma_precedes_transitive(a[0], b[0], c[0]);
            lemma_precedes_total(a[0], c[0]);
        }
    }
}

proof fn lemma_key_precedes_total(a: Seq<Seq<u8>>, b: Seq<Seq<u8>>)
    ensures
        a != b ==> key_precedes(a, b) != key_precedes(b, a),
        !key_precedes(a, a),
    decreases a.len(),
{
    if a.len() > 0 {
        lemma_key_precedes_total(a.drop_first(), a.drop_first());
        if b.len() > 0 {
            if a[0] == b[0] {
                lemma_key_precedes_total(a.drop_first(), b.drop_first());
                if a.drop_first() == b.drop_first() {
                    assert(a =~= seq![a[0]] + a.drop_first());
                    assert(b =~= seq![b[0]] + b.drop_first());
                }
            } else {
                lemma_precedes_total(a[0], b[0]);
            }
        }
    } else if b.len() == 0 {
        assert(a =~= b);
    }
}

/// The key of a path.
fn key_of(path: &[u8], syntax: Syntax) -> (result: Vec<Vec<u8>>)
    ensures
        contents(result@) == path_key(path@, syntax),
{
    let start = volume_of(path, syntax);
    let mut key = volume_key_of(path, syntax);
    let ghost volume = contents(key@);
    let ghost leading = leading_key(path@, start as int);
    if path.len() > start && path[start] == SLASH {
        let mut part: Vec<u8> = Vec::new();
        part.push(RANK_ROOT);
        assert(part@ =~= seq![RANK_ROOT]);
        key.push(part);
    } else if path.len() > start && path[start] == DOT && (path.len() == start + 1 || path[start + 1]
        == SLASH) {
        let mut part: Vec<u8> = Vec::new();
        part.push(RANK_CURRENT);
        assert(part@ =~= seq![RANK_CURRENT]);
        key.push(part);
    }
    assert(contents(key@) =~= volume + leading);
    let mut from: usize = start;
    let mut at = next_named(path, start);
    while at < path.len()
        invariant
            from <= at <= path@.len(),
            at == skip_noise(path@, from as int),
            contents(key@) + keys_from(path@, from as int) == path_key(path@, syntax),
        decreases path@.len() - at,
    {
        let ghost before = contents(key@);
        let ghost rest = named_components(path@, from as int);
        let (component, next) = next_component(path, at);
        let mut part: Vec<u8> = Vec::new();
        if is_parent(component) {
            part.push(RANK_PARENT);
            assert(part@ =~= seq![RANK_PARENT]);
        } else {
            part.push(RANK_NAME);
            assert(part@ =~= seq![RANK_NAME]);
            append(&mut part, component);
        }
        assert(part@ == component_key(component@));
        let ghost added = part@;
        key.push(part);
        from = next;
        at = next_named(path, from);
        proof {
            assert(contents(key@) =~= before.push(added));
            assert(rest =~= seq![component@] + named_components(path@, next as int));
            assert(rest.map_values(|component: Seq<u8>| component_key(component)) =~= seq![added]
                + keys_from(path@, next as int));
            assert(before + (seq![added] + keys_from(path@, next as int)) =~= before.push(added)
                + keys_from(path@, next as int));
        }
    }
    proof {
        assert(named_components(path@, from as int) =~= Seq::empty());
        assert(keys_from(path@, from as int) =~= Seq::empty());
        assert(contents(key@) + Seq::empty() =~= contents(key@));
    }
    key
}

/// Whether one key sorts before another.
fn key_comes_before(left: &Vec<Vec<u8>>, right: &Vec<Vec<u8>>) -> (result: bool)
    ensures
        result == key_precedes(contents(left@), contents(right@)),
{
    let ghost l = contents(left@);
    let ghost r = contents(right@);
    let mut i: usize = 0;
    assert(l.skip(0) =~= l);
    assert(r.skip(0) =~= r);
    while i < left.len() && i < right.len()
        invariant
            l == contents(left@),
            r == contents(right@),
            i <= left.len(),
            i <= right.len(),
            key_precedes(l, r) == key_precedes(l.skip(i as int), r.skip(i as int)),
        decreases left.len() - i,
    {
        assert(l.skip(i as int)[0] == left@[i as int]@);
        assert(r.skip(i as int)[0] == right@[i as int]@);
        if comes_before(left[i].as_slice(), right[i].as_slice()) {
            proof {
                lemma_precedes_total(left@[i as int]@, right@[i as int]@);
            }
            return true;
        }
        if comes_before(right[i].as_slice(), left[i].as_slice()) {
            proof {
                lemma_precedes_total(right@[i as int]@, right@[i as int]@);
            }
            return false;
        }
        proof {
            lemma_precedes_total(left@[i as int]@, right@[i as int]@);
            assert(l.skip(i as int).drop_first() =~= l.skip(i + 1));
            assert(r.skip(i as int).drop_first() =~= r.skip(i + 1));
        }
        i += 1;
    }
    i < right.len()
}

/// The entries whose path has this key, in the order they stand.
pub open spec fn having(entries: Seq<Entry>, key: Seq<Seq<u8>>, syntax: Syntax) -> Seq<Entry>
    decreases entries.len(),
{
    if entries.len() == 0 {
        Seq::empty()
    } else {
        let rest = having(entries.drop_last(), key, syntax);
        if path_key(entries.last().path, syntax) == key {
            rest.push(entries.last())
        } else {
            rest
        }
    }
}

/// Whether entries stand in the order of their paths.
pub open spec fn in_path_order(entries: Seq<Entry>, syntax: Syntax) -> bool {
    forall|i: int, j: int|
        0 <= i < j < entries.len() ==> !key_precedes(
            path_key(#[trigger] entries[j].path, syntax),
            path_key(#[trigger] entries[i].path, syntax),
        )
}

/// Whether `sorted` holds the entries of `given` in the order of their
/// paths, and those of equal paths as they stood.
pub open spec fn is_sorting_of(sorted: Seq<Entry>, given: Seq<Entry>, syntax: Syntax) -> bool {
    &&& in_path_order(sorted, syntax)
    &&& forall|key: Seq<Seq<u8>>| #[trigger] having(sorted, key, syntax) == having(given, key, syntax)
}

proof fn lemma_having_joined(left: Seq<Entry>, right: Seq<Entry>, key: Seq<Seq<u8>>, syntax: Syntax)
    ensures
        having(left + right, key, syntax) == having(left, key, syntax) + having(right, key, syntax),
    decreases right.len(),
{
    if right.len() == 0 {
        assert(left + right =~= left);
        assert(having(left, key, syntax) + having(right, key, syntax) =~= having(left, key, syntax));
    } else {
        lemma_having_joined(left, right.drop_last(), key, syntax);
        assert((left + right).drop_last() =~= left + right.drop_last());
        assert((left + right).last() == right.last());
        let rest = having(right.drop_last(), key, syntax);
        assert(having(left, key, syntax) + rest.push(right.last()) =~= (having(left, key, syntax) + rest).push(
            right.last(),
        ));
    }
}

proof fn lemma_having_none(entries: Seq<Entry>, key: Seq<Seq<u8>>, syntax: Syntax)
    requires
        forall|i: int| 0 <= i < entries.len() ==> path_key(#[trigger] entries[i].path, syntax) != key,
    ensures
        having(entries, key, syntax) == Seq::<Entry>::empty(),
    decreases entries.len(),
{
    if entries.len() > 0 {
        assert(path_key(entries[entries.len() - 1].path, syntax) != key);
        assert forall|i: int| 0 <= i < entries.drop_last().len() implies path_key(
            #[trigger] entries.drop_last()[i].path,
            syntax,
        ) != key by {
            assert(entries.drop_last()[i] == entries[i]);
        }
        lemma_having_none(entries.drop_last(), key, syntax);
    }
}

/// An entry with its key at hand.
struct Keyed {
    key: Vec<Vec<u8>>,
    entry: WalkEntry,
}

spec fn keyed(items: Seq<Keyed>, syntax: Syntax) -> bool {
    forall|i: int|
        0 <= i < items.len() ==> contents((#[trigger] items[i]).key@) == path_key(
            items[i].entry@.path,
            syntax,
        )
}

spec fn items_of(items: Seq<Keyed>) -> Seq<Entry> {
    Seq::new(items.len(), |i: int| items[i].entry@)
}

/// Whether nothing of `right` sorts before anything of `left`.
spec fn none_before(left: Seq<Entry>, right: Seq<Entry>, syntax: Syntax) -> bool {
    forall|i: int, j: int|
        0 <= i < left.len() && 0 <= j < right.len() ==> !key_precedes(
            path_key(#[trigger] right[j].path, syntax),
            path_key(#[trigger] left[i].path, syntax),
        )
}

proof fn lemma_not_before(a: Seq<Seq<u8>>, b: Seq<Seq<u8>>, c: Seq<Seq<u8>>)
    requires
        !key_precedes(b, a),
        !key_precedes(c, b),
    ensures
        !key_precedes(c, a),
{
    if key_precedes(c, a) {
        lemma_key_precedes_total(a, b);
        if a != b {
            lemma_key_precedes_transitive(c, a, b);
        }
    }
}

/// One step of a merge: the head of `taken`, which nothing left sorts before,
/// goes to the end of `out`.
proof fn lemma_take(out: Seq<Entry>, taken: Seq<Entry>, other: Seq<Entry>, syntax: Syntax)
    requires
        taken.len() > 0,
        in_path_order(out, syntax),
        in_path_order(taken, syntax),
        none_before(out, taken, syntax),
        none_before(out, other, syntax),
        none_before(seq![taken[0]], other, syntax),
    ensures
        in_path_order(out.push(taken[0]), syntax),
        in_path_order(taken.drop_first(), syntax),
        none_before(out.push(taken[0]), taken.drop_first(), syntax),
        none_before(out.push(taken[0]), other, syntax),
{
    let head = taken[0];
    let rest = taken.drop_first();
    let longer = out.push(head);
    assert forall|i: int, j: int| 0 <= i < j < longer.len() implies !key_precedes(
        path_key(#[trigger] longer[j].path, syntax),
        path_key(#[trigger] longer[i].path, syntax),
    ) by {
        assert(longer[i] == out[i]);
        if j == out.len() {
            assert(longer[j] == taken[0]);
        } else {
            assert(longer[j] == out[j]);
        }
    }
    assert forall|i: int, j: int| 0 <= i < j < rest.len() implies !key_precedes(
        path_key(#[trigger] rest[j].path, syntax),
        path_key(#[trigger] rest[i].path, syntax),
    ) by {
        assert(rest[i] == taken[i + 1]);
        assert(rest[j] == taken[j + 1]);
    }
    assert forall|i: int, j: int| 0 <= i < longer.len() && 0 <= j < rest.len() implies !key_precedes(
        path_key(#[trigger] rest[j].path, syntax),
        path_key(#[trigger] longer[i].path, syntax),
    ) by {
        assert(rest[j] == taken[j + 1]);
        if i == out.len() {
            assert(longer[i] == taken[0]);
        } else {
            assert(longer[i] == out[i]);
        }
    }
    assert forall|i: int, j: int|
        0 <= i < longer.len() && 0 <= j < other.len() implies !key_precedes(
        path_key(#[trigger] other[j].path, syntax),
        path_key(#[trigger] longer[i].path, syntax),
    ) by {
        if i == out.len() {
            assert(longer[i] == seq![taken[0]][0]);
        } else {
            assert(longer[i] == out[i]);
        }
    }
}

proof fn lemma_take_having(out: Seq<Entry>, taken: Seq<Entry>, key: Seq<Seq<u8>>, syntax: Syntax)
    requires
        taken.len() > 0,
    ensures
        having(out.push(taken[0]), key, syntax) == having(out, key, syntax) + having(seq![taken[0]], key, syntax),
        having(taken, key, syntax) == having(seq![taken[0]], key, syntax) + having(taken.drop_first(), key, syntax),
{
    assert(out.push(taken[0]) =~= out + seq![taken[0]]);
    lemma_having_joined(out, seq![taken[0]], key, syntax);
    assert(taken =~= seq![taken[0]] + taken.drop_first());
    lemma_having_joined(seq![taken[0]], taken.drop_first(), key, syntax);
}

/// Merges two sorted runs. Where two keys are equal, the left one goes first.
fn merge(left: VecDeque<Keyed>, right: VecDeque<Keyed>, syntax: Syntax) -> (result: VecDeque<Keyed>)
    requires
        keyed(left@, syntax),
        keyed(right@, syntax),
        in_path_order(items_of(left@), syntax),
        in_path_order(items_of(right@), syntax),
    ensures
        keyed(result@, syntax),
        in_path_order(items_of(result@), syntax),
        forall|key: Seq<Seq<u8>>| #[trigger]
            having(items_of(result@), key, syntax) == having(items_of(left@), key, syntax) + having(
                items_of(right@),
                key,
                syntax,
            ),
{
    let ghost all_left = items_of(left@);
    let ghost all_right = items_of(right@);
    let mut lower = left;
    let mut upper = right;
    let mut out: VecDeque<Keyed> = VecDeque::new();
    assert forall|key: Seq<Seq<u8>>| #[trigger]
        having(all_left, key, syntax) + having(all_right, key, syntax) == having(items_of(out@), key, syntax) + having(
            items_of(lower@),
            key,
            syntax,
        ) + having(items_of(upper@), key, syntax) by {
        assert(items_of(out@) =~= Seq::empty());
        assert(having(items_of(out@), key, syntax) + having(all_left, key, syntax) =~= having(all_left, key, syntax));
    }
    while lower.len() > 0 || upper.len() > 0
        invariant
            keyed(out@, syntax),
            keyed(lower@, syntax),
            keyed(upper@, syntax),
            in_path_order(items_of(out@), syntax),
            in_path_order(items_of(lower@), syntax),
            in_path_order(items_of(upper@), syntax),
            none_before(items_of(out@), items_of(lower@), syntax),
            none_before(items_of(out@), items_of(upper@), syntax),
            forall|key: Seq<Seq<u8>>| #[trigger]
                having(all_left, key, syntax) + having(all_right, key, syntax) == having(items_of(out@), key, syntax)
                    + having(items_of(lower@), key, syntax) + having(items_of(upper@), key, syntax),
        decreases lower@.len() + upper@.len(),
    {
        let ghost done = items_of(out@);
        let ghost ls = items_of(lower@);
        let ghost us = items_of(upper@);
        let from_upper = lower.len() == 0 || (upper.len() > 0 && key_comes_before(
            &upper[0].key,
            &lower[0].key,
        ));
        if from_upper {
            proof {
                let head = path_key(us[0].path, syntax);
                assert(us[0] == upper@[0].entry@);
                assert forall|i: int, j: int|
                    0 <= i < seq![us[0]].len() && 0 <= j < ls.len() implies !key_precedes(
                    path_key(#[trigger] ls[j].path, syntax),
                    path_key(#[trigger] seq![us[0]][i].path, syntax),
                ) by {
                    assert(ls[0] == lower@[0].entry@);
                    let first = path_key(ls[0].path, syntax);
                    lemma_key_precedes_total(first, first);
                    if key_precedes(path_key(ls[j].path, syntax), head) {
                        lemma_key_precedes_transitive(path_key(ls[j].path, syntax), head, first);
                        if j > 0 {
                            assert(!key_precedes(path_key(ls[j].path, syntax), path_key(ls[0].path, syntax)));
                        }
                    }
                }
                lemma_take(done, us, ls, syntax);
                assert forall|key: Seq<Seq<u8>>| #[trigger]
                    having(all_left, key, syntax) + having(all_right, key, syntax) == having(
                        done.push(us[0]),
                        key,
                        syntax,
                    ) + having(ls, key, syntax) + having(us.drop_first(), key, syntax) by {
                    let one = having(seq![us[0]], key, syntax);
                    lemma_take_having(done, us, key, syntax);
                    assert(having(us, key, syntax) == one + having(us.drop_first(), key, syntax));
                    if key == head {
                        assert forall|j: int| 0 <= j < ls.len() implies path_key(
                            #[trigger] ls[j].path,
                            syntax,
                        ) != key by {
                            assert(ls[0] == lower@[0].entry@);
                            if j > 0 {
                                assert(!key_precedes(path_key(ls[j].path, syntax), path_key(ls[0].path, syntax)));
                            } else {
                                lemma_key_precedes_total(head, head);
                            }
                        }
                        lemma_having_none(ls, key, syntax);
                        assert(having(done, key, syntax) + having(ls, key, syntax) + having(us, key, syntax) =~= having(
                            done,
                            key,
                            syntax,
                        ) + one + having(ls, key, syntax) + having(us.drop_first(), key, syntax));
                    } else {
                        assert forall|j: int| 0 <= j < seq![us[0]].len() implies path_key(
                            #[trigger] seq![us[0]][j].path,
                            syntax,
                        ) != key by {}
                        lemma_having_none(seq![us[0]], key, syntax);
                        assert(having(done, key, syntax) + having(ls, key, syntax) + having(us, key, syntax) =~= having(
                            done,
                            key,
                            syntax,
                        ) + one + having(ls, key, syntax) + having(us.drop_first(), key, syntax));
                    }
                }
            }
            let item = upper.pop_front();
            if let Some(item) = item {
                out.push_back(item);
            }
            proof {
                assert(items_of(out@) =~= done.push(us[0]));
                assert(items_of(upper@) =~= us.drop_first());
            }
        } else {
            proof {
                assert(ls[0] == lower@[0].entry@);
                assert forall|i: int, j: int|
                    0 <= i < seq![ls[0]].len() && 0 <= j < us.len() implies !key_precedes(
                    path_key(#[trigger] us[j].path, syntax),
                    path_key(#[trigger] seq![ls[0]][i].path, syntax),
                ) by {
                    assert(us[0] == upper@[0].entry@);
                    if j > 0 {
                        lemma_not_before(
                            path_key(ls[0].path, syntax),
                            path_key(us[0].path, syntax),
                            path_key(us[j].path, syntax),
                        );
                    }
                }
                lemma_take(done, ls, us, syntax);
                assert forall|key: Seq<Seq<u8>>| #[trigger]
                    having(all_left, key, syntax) + having(all_right, key, syntax) == having(
                        done.push(ls[0]),
                        key,
                        syntax,
                    ) + having(ls.drop_first(), key, syntax) + having(us, key, syntax) by {
                    let one = having(seq![ls[0]], key, syntax);
                    lemma_take_having(done, ls, key, syntax);
                    assert(having(ls, key, syntax) == one + having(ls.drop_first(), key, syntax));
                    assert(having(done, key, syntax) + (one + having(ls.drop_first(), key, syntax)) =~= having(
                        done,
                        key,
                        syntax,
                    ) + one + having(ls.drop_first(), key, syntax));
                }
            }
            let item = lower.pop_front();
            if let Some(item) = item {
                out.push_back(item);
            }
            proof {
                assert(items_of(out@) =~= done.push(ls[0]));
                assert(items_of(lower@) =~= ls.drop_first());
            }
        }
    }
    assert forall|key: Seq<Seq<u8>>| #[trigger]
        having(items_of(out@), key, syntax) == having(all_left, key, syntax) + having(all_right, key, syntax) by {
        assert(items_of(lower@) =~= Seq::empty());
        assert(items_of(upper@) =~= Seq::empty());
        assert(having(items_of(out@), key, syntax) + having(items_of(lower@), key, syntax) + having(
            items_of(upper@),
            key,
            syntax,
        ) =~= having(items_of(out@), key, syntax));
    }
    out
}

/// Sorts keyed entries by halves.
fn merge_sort(items: VecDeque<Keyed>, syntax: Syntax) -> (result: VecDeque<Keyed>)
    requires
        keyed(items@, syntax),
    ensures
        keyed(result@, syntax),
        is_sorting_of(items_of(result@), items_of(items@), syntax),
    decreases items@.len(),
{
    if items.len() <= 1 {
        return items;
    }
    let ghost all = items_of(items@);
    let half: usize = items.len() / 2;
    let mut right = items;
    let mut left: VecDeque<Keyed> = VecDeque::new();
    assert(items_of(left@) + items_of(right@) =~= all);
    while left.len() < half
        invariant
            keyed(left@, syntax),
            keyed(right@, syntax),
            left@.len() <= half,
            half < all.len(),
            left@.len() + right@.len() == all.len(),
            items_of(left@) + items_of(right@) == all,
        decreases half - left@.len(),
    {
        let ghost ls = items_of(left@);
        let ghost rs = items_of(right@);
        let item = right.pop_front();
        if let Some(item) = item {
            left.push_back(item);
        }
        proof {
            assert(items_of(left@) =~= ls.push(rs[0]));
            assert(items_of(right@) =~= rs.drop_first());
            assert(ls.push(rs[0]) + rs.drop_first() =~= ls + rs);
        }
    }
    let ghost ls = items_of(left@);
    let ghost rs = items_of(right@);
    let sorted = merge(merge_sort(left, syntax), merge_sort(right, syntax), syntax);
    assert forall|key: Seq<Seq<u8>>| #[trigger]
        having(items_of(sorted@), key, syntax) == having(all, key, syntax) by {
        lemma_having_joined(ls, rs, key, syntax);
    }
    sorted
}

/// Sorts entries by their paths. Entries of equal paths keep their order.
pub fn sort_entries(entries: Vec<WalkEntry>, syntax: Syntax) -> (result: Vec<WalkEntry>)
    ensures
        is_sorting_of(entries_of(result@), entries_of(entries@), syntax),
{
    let ghost all = entries_of(entries@);
    let mut rest = entries;
    let mut items: VecDeque<Keyed> = VecDeque::new();
    assert(entries_of(rest@) + items_of(items@) =~= all);
    while rest.len() > 0
        invariant
            keyed(items@, syntax),
            entries_of(rest@) + items_of(items@) == all,
        decreases rest@.len(),
    {
        let ghost es = entries_of(rest@);
        let ghost done = items_of(items@);
        let ghost before = items@;
        let last = rest.pop();
        if let Some(entry) = last {
            let ghost view = entry@;
            let key = key_of(entry.path(), syntax);
            items.push_front(Keyed { key, entry });
            proof {
                assert forall|i: int| 0 <= i < items@.len() implies contents(
                    (#[trigger] items@[i]).key@,
                ) == path_key(items@[i].entry@.path, syntax) by {
                    if i > 0 {
                        assert(items@[i] == before[i - 1]);
                    }
                }
                assert(items_of(items@) =~= seq![view] + done);
                assert(entries_of(rest@) =~= es.drop_last());
                assert(es.last() == view);
                assert(es.drop_last() + (seq![view] + done) =~= es + done);
            }
        }
    }
    assert(entries_of(rest@) + items_of(items@) =~= items_of(items@));
    let mut sorted = merge_sort(items, syntax);
    let ghost target = items_of(sorted@);
    let mut result: Vec<WalkEntry> = Vec::new();
    assert(entries_of(result@) + items_of(sorted@) =~= target);
    while sorted.len() > 0
        invariant
            entries_of(result@) + items_of(sorted@) == target,
        decreases sorted@.len(),
    {
        let ghost es = entries_of(result@);
        let ghost left = items_of(sorted@);
        let item = sorted.pop_front();
        if let Some(item) = item {
            let Keyed { key, entry } = item;
            result.push(entry);
            proof {
                assert(entries_of(result@) =~= es.push(left[0]));
                assert(items_of(sorted@) =~= left.drop_first());
                assert(es.push(left[0]) + left.drop_first() =~= es + left);
            }
        }
    }
    assert(entries_of(result@) + items_of(sorted@) =~= entries_of(result@));
    result
}

proof fn lemma_having_counts(entries: Seq<Entry>, entry: Entry, syntax: Syntax)
    ensures
        having(entries, path_key(entry.path, syntax), syntax).to_multiset().count(entry)
            == entries.to_multiset().count(entry),
    decreases entries.len(),
{
    broadcast use group_to_multiset_ensures;

    if entries.len() > 0 {
        let rest = entries.drop_last();
        lemma_having_counts(rest, entry, syntax);
        assert(rest.push(entries.last()) =~= entries);
    } else {
        assert(having(entries, path_key(entry.path, syntax), syntax) =~= entries);
    }
}

/// Sorting keeps every entry, as often as it was there, and adds none.
pub proof fn law_sorting_keeps_every_entry(sorted: Seq<Entry>, given: Seq<Entry>, syntax: Syntax)
    requires
        is_sorting_of(sorted, given, syntax),
    ensures
        sorted.to_multiset() == given.to_multiset(),
{
    assert forall|entry: Entry| #[trigger]
        sorted.to_multiset().count(entry) == given.to_multiset().count(entry) by {
        lemma_having_counts(sorted, entry, syntax);
        lemma_having_counts(given, entry, syntax);
        assert(having(sorted, path_key(entry.path, syntax), syntax) == having(given, path_key(entry.path, syntax), syntax));
    }
    assert(sorted.to_multiset() =~= given.to_multiset());
}

} // verus!
