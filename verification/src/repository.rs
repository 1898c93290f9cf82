//! Finding the Git directories that a walk root's rules come from.
//!
//! A normal checkout has a `.git` directory. Linked worktrees and submodules
//! instead put a `gitdir: ` pointer into a `.git` file, and a worktree's
//! private directory can in turn point at the common one through `commondir`.
//! Malformed metadata is as good as none.
use vstd::prelude::*;
use vstd::slice::{slice_subrange, slice_to_vec};
use vstd::utf8::{encode_utf8, valid_utf8};

use crate::absolute::{
    absolute_length, absolute_prefix, is_parent, named_components, next_component, next_named,
    skip_noise,
};
use crate::bytes::{
    append, begins_with, same, starts_with, DOT, NEWLINE, NUL, RETURN, SLASH,
};
use crate::git_config::without_return;
use crate::literal::{contents, Syntax};
use crate::paths::{glob_bytes, push_name, pushed, slashed};
use crate::unicode::text_of;
use crate::volume::{volume_length, volume_of};

verus! {

/// What a `.git` pointer starts with.
pub const GITDIR_PREFIX: &'static str = "gitdir: ";

/// `file` without the line end it may have.
pub open spec fn without_line_end(file: Seq<u8>) -> Seq<u8> {
    without_return(
        if file.len() > 0 && file.last() == NEWLINE {
            file.drop_last()
        } else {
            file
        },
    )
}

/// Whether `byte` cannot stand in a path that Git writes.
pub open spec fn spoils_path(byte: u8) -> bool {
    byte == NUL || byte == NEWLINE || byte == RETURN
}

/// Whether the host can have a path of these bytes.
pub open spec fn spells_path(path: Seq<u8>, syntax: Syntax) -> bool {
    match syntax {
        Syntax::Posix => true,
        Syntax::Windows => valid_utf8(path),
    }
}

/// The one path a metadata file holds.
pub open spec fn metadata_path(file: Seq<u8>, syntax: Syntax) -> Option<Seq<u8>> {
    let path = without_line_end(file);
    if path.len() == 0 || exists|i: int| 0 <= i < path.len() && spoils_path(#[trigger] path[i]) {
        None
    } else if !spells_path(path, syntax) {
        None
    } else {
        Some(path)
    }
}

/// The path a `.git` pointer holds.
pub open spec fn pointer_path(file: Seq<u8>, syntax: Syntax) -> Option<Seq<u8>> {
    let prefix = encode_utf8(GITDIR_PREFIX@);
    if begins_with(file, prefix) {
        metadata_path(file.skip(prefix.len() as int), syntax)
    } else {
        None
    }
}

/// What a path that stands in a file of `base` names: itself where it is
/// absolute, else a place below `base`. Either separator counts on Windows,
/// where a path may also start at the top of the base's own drive or share, or
/// name a drive and no place to start from.
pub open spec fn resolved(base: Seq<u8>, path: Seq<u8>, syntax: Syntax) -> Option<Seq<u8>> {
    let text = slashed(path, syntax);
    if text.len() == 0 {
        None
    } else if absolute_length(text, syntax) is Some {
        Some(text)
    } else if syntax == Syntax::Windows && text[0] == SLASH {
        Some(base.take(volume_length(base, syntax)) + text)
    } else if syntax == Syntax::Windows && volume_length(text, syntax) > 0 {
        Some(text)
    } else {
        Some(pushed(base, text, syntax))
    }
}

/// The bytes a vector holds, where there is one.
pub open spec fn optional(path: Option<Vec<u8>>) -> Option<Seq<u8>> {
    match path {
        Some(path) => Some(path@),
        None => None,
    }
}

/// Reads the one path Git writes into a `commondir` file.
pub fn parse_metadata_path(file: &[u8], syntax: Syntax) -> (result: Option<Vec<u8>>)
    ensures
        optional(result) == metadata_path(file@, syntax),
{
    let mut end: usize = file.len();
    if end > 0 && file[end - 1] == NEWLINE {
        end -= 1;
    }
    if end > 0 && file[end - 1] == RETURN {
        end -= 1;
    }
    let path = slice_subrange(file, 0, end);
    assert(path@ =~= without_line_end(file@));
    if path.len() == 0 {
        return None;
    }
    let mut i: usize = 0;
    while i < path.len()
        invariant
            i <= path@.len(),
            path@ == without_line_end(file@),
            forall|j: int| 0 <= j < i ==> !spoils_path(#[trigger] path@[j]),
        decreases path@.len() - i,
    {
        if path[i] == NUL || path[i] == NEWLINE || path[i] == RETURN {
            assert(spoils_path(path@[i as int]));
            return None;
        }
        i += 1;
    }
    if syntax == Syntax::Windows && text_of(path).is_none() {
        return None;
    }
    Some(slice_to_vec(path))
}

/// Reads the path of a `.git` pointer. Only the exact form Git writes counts.
pub fn parse_gitdir_pointer(file: &[u8], syntax: Syntax) -> (result: Option<Vec<u8>>)
    ensures
        optional(result) == pointer_path(file@, syntax),
{
    let prefix = GITDIR_PREFIX.as_bytes();
    if !starts_with(file, prefix) {
        return None;
    }
    let rest = slice_subrange(file, prefix.len(), file.len());
    assert(rest@ =~= file@.skip(prefix@.len() as int));
    parse_metadata_path(rest, syntax)
}

/// What a path that stands in a file of `base` names: itself where it is
/// absolute, else a place below `base`.
pub fn resolve_metadata_path(base: &[u8], path: Vec<u8>, syntax: Syntax) -> (result: Option<
    Vec<u8>,
>)
    ensures
        optional(result) == resolved(base@, path@, syntax),
{
    let text = glob_bytes(path.as_slice(), syntax);
    if text.len() == 0 {
        None
    } else if absolute_prefix(text.as_slice(), syntax).is_some() {
        Some(text)
    } else if syntax == Syntax::Windows && text[0] == SLASH {
        let volume = volume_of(base, syntax);
        let mut whole = slice_to_vec(slice_subrange(base, 0, volume));
        append(&mut whole, text.as_slice());
        assert(whole@ =~= base@.take(volume as int) + text@);
        Some(whole)
    } else if syntax == Syntax::Windows && volume_of(text.as_slice(), syntax) > 0 {
        Some(text)
    } else {
        Some(push_name(base, text.as_slice(), syntax))
    }
}

/// The private Git directory and the common one. They are the same for
/// ordinary checkouts.
#[derive(Debug)]
pub struct RepositoryLayout {
    pub private_directory: Vec<u8>,
    pub common_directory: Vec<u8>,
}

/// What a look at a directory's `.git` found.
#[derive(Debug, Clone, Copy, PartialEq, Eq, Structural)]
pub enum DotGit {
    Missing,
    Unreadable,
    Directory,
    File,
    Other,
}

/// What the search for a repository does next.
#[derive(Debug, Clone, Copy, PartialEq, Eq, Structural)]
pub enum RepositoryStep {
    /// Look into the parent directory, if there is one.
    AskParent,
    /// This `.git` is the Git directory.
    Plain,
    /// This `.git` points at the Git directory.
    ReadPointer,
    /// There is no usable repository.
    Nothing,
}

/// What the search does after a look at one directory's `.git`. Only where
/// nothing is there it goes on to the parent.
pub fn repository_step(found: DotGit) -> (result: RepositoryStep)
    ensures
        result == match found {
            DotGit::Missing => RepositoryStep::AskParent,
            DotGit::Directory => RepositoryStep::Plain,
            DotGit::File => RepositoryStep::ReadPointer,
            DotGit::Unreadable | DotGit::Other => RepositoryStep::Nothing,
        },
{
    match found {
        DotGit::Missing => RepositoryStep::AskParent,
        DotGit::Directory => RepositoryStep::Plain,
        DotGit::File => RepositoryStep::ReadPointer,
        DotGit::Unreadable | DotGit::Other => RepositoryStep::Nothing,
    }
}

/// The Git directory that the pointer in `root` names.
pub fn private_directory(root: &[u8], pointer: &[u8], syntax: Syntax) -> (result: Option<Vec<u8>>)
    ensures
        optional(result) == match pointer_path(pointer@, syntax) {
            Some(path) => resolved(root@, path, syntax),
            None => None,
        },
{
    match parse_gitdir_pointer(pointer, syntax) {
        Some(path) => resolve_metadata_path(root, path, syntax),
        None => None,
    }
}

/// The attempt to read a private directory's `commondir`.
#[derive(Debug)]
pub enum CommonDir {
    Contents(Vec<u8>),
    Missing,
    Unreadable,
}

/// The layout behind a private Git directory. Without a `commondir` the
/// directory is its own common one.
pub fn repository_layout_at(private_directory: Vec<u8>, common: CommonDir, syntax: Syntax) -> (result:
    Option<RepositoryLayout>)
    ensures
        match common {
            CommonDir::Missing => match result {
                Some(layout) => layout.private_directory@ == private_directory@
                    && layout.common_directory@ == private_directory@,
                None => false,
            },
            CommonDir::Unreadable => result is None,
            CommonDir::Contents(file) => {
                let directory = match metadata_path(file@, syntax) {
                    Some(path) => resolved(private_directory@, path, syntax),
                    None => None,
                };
                match result {
                    Some(layout) => layout.private_directory@ == private_directory@
                        && directory == Some(layout.common_directory@),
                    None => directory is None,
                }
            },
        },
{
    match common {
        CommonDir::Contents(file) => match parse_metadata_path(file.as_slice(), syntax) {
            Some(path) => match resolve_metadata_path(
                private_directory.as_slice(),
                path,
                syntax,
            ) {
                Some(common_directory) => Some(
                    RepositoryLayout { private_directory, common_directory },
                ),
                None => None,
            },
            None => None,
        },
        CommonDir::Missing => {
            let common_directory = slice_to_vec(private_directory.as_slice());
            Some(RepositoryLayout { private_directory, common_directory })
        },
        CommonDir::Unreadable => None,
    }
}

/// A path with names pushed onto it, one after the other.
pub open spec fn joined(base: Seq<u8>, names: Seq<Seq<u8>>, syntax: Syntax) -> Seq<u8>
    decreases names.len(),
{
    if names.len() == 0 {
        base
    } else {
        joined(pushed(base, names[0], syntax), names.drop_first(), syntax)
    }
}

/// Whether one of the names leads to a parent.
pub open spec fn leads_up(names: Seq<Seq<u8>>) -> bool {
    exists|i: int| 0 <= i < names.len() && #[trigger] names[i] == seq![DOT, DOT]
}

/// Where a root lies, as far as its spelling tells: an absolute root lies where
/// it says, another one below the current directory. What leads to a parent may
/// lead through a link, what starts at the root of some drive leaves open which,
/// and what names a drive but no root starts from the drive's own directory:
/// only the filesystem can tell then.
pub open spec fn place_spelled(root: Seq<u8>, current: Seq<u8>, syntax: Syntax) -> Option<Seq<u8>> {
    match absolute_length(root, syntax) {
        Some(length) => {
            let names = named_components(root, length);
            if leads_up(names) {
                None
            } else {
                Some(joined(root.take(length), names, syntax))
            }
        },
        None => {
            let names = named_components(root, 0);
            if leads_up(names) || (root.len() > 0 && root[0] == SLASH) || volume_length(
                root,
                syntax,
            ) > 0 {
                None
            } else {
                Some(joined(current, names, syntax))
            }
        },
    }
}

/// Pushes the components of `path` from `from` on that name something onto
/// `base`, unless one of them leads to a parent.
fn join_components(base: Vec<u8>, path: &[u8], from: usize, syntax: Syntax) -> (result: Option<Vec<u8>>)
    requires
        from <= path@.len(),
    ensures
        optional(result) == (if leads_up(named_components(path@, from as int)) {
            None
        } else {
            Some(joined(base@, named_components(path@, from as int), syntax))
        }),
{
    let ghost names = named_components(path@, from as int);
    let mut place = base;
    let mut next: usize = from;
    let mut at: usize = next_named(path, from);
    let ghost mut passed: int = 0;
    assert(names.skip(0) =~= names);
    while at < path.len()
        invariant
            next <= at <= path@.len(),
            at == skip_noise(path@, next as int),
            names == named_components(path@, from as int),
            0 <= passed <= names.len(),
            named_components(path@, next as int) == names.skip(passed),
            forall|i: int| 0 <= i < passed ==> #[trigger] names[i] != seq![DOT, DOT],
            joined(place@, names.skip(passed), syntax) == joined(base@, names, syntax),
        decreases path@.len() - at,
    {
        let ghost rest = names.skip(passed);
        let (name, after) = next_component(path, at);
        proof {
            assert(rest =~= seq![name@] + named_components(path@, after as int));
            assert(rest[0] == name@);
            assert(names[passed] == rest[0]);
            assert(rest.drop_first() =~= named_components(path@, after as int));
            assert(rest.drop_first() =~= names.skip(passed + 1));
        }
        if is_parent(name) {
            return None;
        }
        place = push_name(place.as_slice(), name, syntax);
        next = after;
        at = next_named(path, next);
        proof {
            passed = passed + 1;
        }
    }
    assert(names.skip(passed).len() == 0);
    Some(place)
}

/// Where a root lies, as far as its spelling tells. `current` is the directory
/// that relative paths start from.
pub fn place_of_root(root: &[u8], current: &[u8], syntax: Syntax) -> (result: Option<Vec<u8>>)
    ensures
        optional(result) == place_spelled(root@, current@, syntax),
{
    match absolute_prefix(root, syntax) {
        Some(length) => {
            let start = slice_subrange(root, 0, length);
            assert(start@ =~= root@.take(length as int));
            join_components(slice_to_vec(start), root, length, syntax)
        },
        None => if (root.len() > 0 && root[0] == SLASH) || volume_of(root, syntax) > 0 {
            None
        } else {
            join_components(slice_to_vec(current), root, 0, syntax)
        },
    }
}

/// How many of the directories above a root lie inside the repository:
/// everything up to and with its root, or all of them where it is not among
/// them. `ancestors` starts with the root itself.
pub open spec fn inherited_count(ancestors: Seq<Seq<u8>>, repository: Seq<u8>, from: int) -> int
    decreases ancestors.len() - from,
{
    if from >= ancestors.len() {
        ancestors.len() as int
    } else if ancestors[from] == repository {
        from + 1
    } else {
        inherited_count(ancestors, repository, from + 1)
    }
}

/// The directories whose rules a subtree walk inherits, from the repository's
/// root down to, but without, the walk's own.
pub open spec fn inherited(ancestors: Seq<Seq<u8>>, repository: Seq<u8>) -> Seq<Seq<u8>> {
    if ancestors.len() == 0 || ancestors[0] == repository {
        Seq::empty()
    } else {
        ancestors.subrange(1, inherited_count(ancestors, repository, 1)).reverse()
    }
}

/// The directories whose rules a subtree walk inherits.
///
/// `ancestors` holds the walk's root, its parent, and so on outwards.
pub fn ancestor_directories(ancestors: &Vec<Vec<u8>>, repository_root: &[u8]) -> (result: Vec<
    Vec<u8>,
>)
    ensures
        contents(result@) == inherited(contents(ancestors@), repository_root@),
{
    let ghost all = contents(ancestors@);
    let mut directories: Vec<Vec<u8>> = Vec::new();
    if ancestors.len() == 0 || same(ancestors[0].as_slice(), repository_root) {
        assert(contents(directories@) =~= Seq::empty());
        return directories;
    }
    let mut count: usize = 1;
    let mut open = true;
    while open && count < ancestors.len()
        invariant
            all == contents(ancestors@),
            1 <= count <= ancestors@.len(),
            open ==> inherited_count(all, repository_root@, 1) == inherited_count(
                all,
                repository_root@,
                count as int,
            ),
            !open ==> inherited_count(all, repository_root@, 1) == count,
        decreases ancestors@.len() - count, (if open { 1int } else { 0int }),
    {
        assert(all[count as int] == ancestors@[count as int]@);
        if same(ancestors[count].as_slice(), repository_root) {
            open = false;
        }
        count += 1;
    }
    let mut i: usize = count;
    let ghost whole = all.subrange(1, count as int).reverse();
    while i > 1
        invariant
            all == contents(ancestors@),
            1 <= i <= count <= ancestors@.len(),
            whole == all.subrange(1, count as int).reverse(),
            contents(directories@) == whole.take(count - i),
        decreases i,
    {
        let ghost before = contents(directories@);
        i -= 1;
        directories.push(slice_to_vec(ancestors[i].as_slice()));
        proof {
            assert(whole[count - i - 1] == all[i as int]);
            assert(contents(directories@) =~= before.push(all[i as int]));
            assert(whole.take(count - i) =~= before.push(all[i as int]));
        }
    }
    assert(whole.take(count - 1) =~= whole);
    directories
}

/// A line end behind the path of a metadata file is no part of it, with or
/// without a carriage return, and a file that holds anything else that cannot
/// stand in a path holds none.
pub proof fn law_a_metadata_file_holds_one_path(path: Seq<u8>)
    requires
        path.len() > 0,
        !path.contains(NUL),
        !path.contains(NEWLINE),
        !path.contains(RETURN),
    ensures
        metadata_path(path, Syntax::Posix) == Some(path),
        metadata_path(path.push(NEWLINE), Syntax::Posix) == Some(path),
        metadata_path(path.push(RETURN).push(NEWLINE), Syntax::Posix) == Some(path),
        metadata_path(path.push(NEWLINE) + path, Syntax::Posix) is None,
        metadata_path(path.push(NUL) + path, Syntax::Posix) is None,
        metadata_path(seq![NEWLINE], Syntax::Posix) is None,
{
    assert forall|i: int| 0 <= i < path.len() implies !spoils_path(#[trigger] path[i]) by {
        assert(path.contains(path[i]));
    }
    assert(!spoils_path(path[path.len() - 1]));
    assert(without_line_end(path) == path);
    assert(path.push(NEWLINE).drop_last() =~= path);
    assert(without_line_end(path.push(NEWLINE)) == path);
    let both = path.push(RETURN).push(NEWLINE);
    assert(both.drop_last() =~= path.push(RETURN));
    assert(path.push(RETURN).drop_last() =~= path);
    assert(without_line_end(both) == path);
    let two = path.push(NEWLINE) + path;
    assert(two.last() == path.last());
    assert(without_line_end(two) == two);
    assert(spoils_path(two[path.len() as int]));
    let cut = path.push(NUL) + path;
    assert(cut.last() == path.last());
    assert(without_line_end(cut) == cut);
    assert(spoils_path(cut[path.len() as int]));
    assert(seq![NEWLINE].drop_last() =~= Seq::<u8>::empty());
}

/// A pointer holds a path exactly behind its prefix.
pub proof fn law_a_pointer_names_its_path_behind_the_prefix(path: Seq<u8>, file: Seq<u8>)
    ensures
        pointer_path(encode_utf8("gitdir: "@) + path, Syntax::Posix) == metadata_path(
            path,
            Syntax::Posix,
        ),
        !begins_with(file, encode_utf8("gitdir: "@)) ==> pointer_path(file, Syntax::Posix) is None,
{
    let prefix = encode_utf8("gitdir: "@);
    let whole = prefix + path;
    assert(whole.take(prefix.len() as int) =~= prefix);
    assert(whole.skip(prefix.len() as int) =~= path);
}

proof fn lemma_inherited_count(
    ancestors: Seq<Seq<u8>>,
    repository: Seq<u8>,
    from: int,
    at: int,
)
    requires
        0 <= from <= at < ancestors.len(),
        ancestors[at] == repository,
        forall|i: int| from <= i < at ==> #[trigger] ancestors[i] != repository,
    ensures
        inherited_count(ancestors, repository, from) == at + 1,
    decreases at - from,
{
    if from < at {
        assert(ancestors[from] != repository);
        lemma_inherited_count(ancestors, repository, from + 1, at);
    }
}

/// A walk inherits the rules of the directories from its repository's root down
/// to its parent, in that order, and of none above the repository.
pub proof fn law_rules_are_inherited_from_the_repository_down(
    own: Seq<u8>,
    between: Seq<Seq<u8>>,
    repository: Seq<u8>,
    above: Seq<Seq<u8>>,
)
    requires
        own != repository,
        !between.contains(repository),
    ensures
        inherited(seq![own] + between + seq![repository] + above, repository) == seq![repository]
            + between.reverse(),
        inherited(seq![repository] + above, repository).len() == 0,
{
    let all = seq![own] + between + seq![repository] + above;
    let at = between.len() as int + 1;
    assert(all[0] == own);
    assert(all[at] == repository);
    assert forall|i: int| 1 <= i < at implies #[trigger] all[i] != repository by {
        assert(all[i] == between[i - 1]);
        assert(between.contains(between[i - 1]));
    }
    lemma_inherited_count(all, repository, 1, at);
    assert(all.subrange(1, at + 1) =~= between.push(repository));
    assert(between.push(repository).reverse() =~= seq![repository] + between.reverse());
    assert((seq![repository] + above)[0] == repository);
}

/// A path in a metadata file names itself where it is absolute, and elsewhere a
/// place below the directory of the file.
pub proof fn law_a_relative_path_starts_at_its_file(base: Seq<u8>, path: Seq<u8>)
    requires
        path.len() > 0,
        base.len() > 0,
        base.last() != SLASH,
    ensures
        resolved(base, path, Syntax::Posix) == (if path[0] == SLASH {
            Some(path)
        } else {
            Some(base.push(SLASH) + path)
        }),
{
    assert(slashed(path, Syntax::Posix) =~= path);
}

} // verus!
