//! What one directory entry means for a walk.
//!
//! Every frontend schedules directories, reports errors and delivers entries in
//! its own way. What an entry *means* - filtered away, traversed into, emitted -
//! is decided here, once.
//!
//! Filters run before any `stat`: an entry that no pattern will emit costs no
//! filesystem call. The only question that comes earlier is what a link points
//! at, because that is itself an input to the filters.
use std::sync::Arc;

use vstd::prelude::*;
use vstd::slice::slice_subrange;
use vstd::utf8::encode_utf8;

use crate::bytes::{same, BACKSLASH, DOT, SLASH};
use crate::failure::{Failure, FailureKind};
use crate::gitignore::{anchored, chain_verdict, Anchor, IgnoreScope, SetModel};
use crate::listing::{Listed, ListedEntry};
use crate::literal::{is_path_separator, separates, Syntax};
use crate::options::{Entry, Metadata, WalkEntry, WildcardMode};
use crate::paths::{law_the_start_depends_on_the_root_alone, pushed, pushed_start};
use crate::volume::bare_drive;
use crate::pattern::{
    pattern_allows_extension, pattern_covers, pattern_may_reach, pattern_may_reach_hidden,
    pattern_selects, Traversal, TraversalPattern,
};
use crate::walker::{
    above_limit, may_descend, may_select_file, models, RootModel, Walker, WalkerModel,
};

verus! {

/// What a filesystem is asked about an entry.
#[derive(Debug, Clone, Copy, PartialEq, Eq, Structural)]
pub enum Question {
    /// What the entry is once links are followed.
    Target,
    /// What the entry itself is.
    Own,
}

/// An answer to a question, if it was asked yet.
pub type Answer = Option<Result<Metadata, Failure>>;

/// What an answer says.
pub open spec fn said(answer: Answer) -> Option<Result<Metadata, FailureKind>> {
    match answer {
        Some(Ok(metadata)) => Some(Ok(metadata)),
        Some(Err(failure)) => Some(Err(failure.kind)),
        None => None,
    }
}

/// An entry that passed every filter, minus its path.
#[derive(Debug, Clone, Copy, PartialEq, Eq, Structural)]
pub struct EmittedEntry {
    pub is_dir: bool,
    pub is_symlink: bool,
    pub depth: usize,
    pub metadata: Option<Metadata>,
}

impl EmittedEntry {
    /// Completes the entry with its path and the root it was found under.
    pub fn with_path(self, path: Vec<u8>, root: Arc<Vec<u8>>) -> (result: WalkEntry)
        ensures
            result@ == (Entry {
                path: path@,
                root: root@,
                is_dir: self.is_dir,
                is_symlink: self.is_symlink,
                depth: self.depth as int,
                metadata: self.metadata,
            }),
    {
        WalkEntry::new(path, root, self.is_dir, self.is_symlink, self.depth, self.metadata)
    }
}

/// What a frontend has to do with one directory entry.
#[derive(Debug, Clone, Copy, PartialEq, Eq, Structural)]
pub enum EntryAction {
    /// Ask the filesystem, and come back with the answer.
    Ask(Question),
    /// The entry is filtered away.
    Skip,
    /// Traverse into this directory; it is not emitted itself.
    Descend,
    /// Emit this entry; there is nothing to traverse into.
    Emit(EmittedEntry),
    /// Traverse into this directory and emit it as well.
    DescendAndEmit(EmittedEntry),
    /// The answer to this question was a failure. A directory that was already
    /// cleared for traversal still is.
    Failed { question: Question, descend: bool },
}

/// Whether some component of a path starts with a period.
pub open spec fn is_hidden(path: Seq<u8>, syntax: Syntax) -> bool {
    exists|i: int| #[trigger] hidden_at(path, i, syntax)
}

/// Whether a component that starts at `i` starts with a period.
pub open spec fn hidden_at(path: Seq<u8>, i: int, syntax: Syntax) -> bool {
    0 <= i < path.len() && path[i] == DOT && (i == 0 || separates(path[i - 1], syntax))
}

/// The name of a repository's own directory.
pub const GIT_DIRECTORY: &'static str = ".git";

/// Whether an entry is the repository's own directory, and left out as such.
pub open spec fn is_git_directory(walker: WalkerModel, name: Seq<u8>) -> bool {
    walker.respect_git_ignore && !walker.options.keep_git_dir && name == encode_utf8(
        GIT_DIRECTORY@,
    )
}

/// Whether an entry's depth, name and spelling let it into the walk at all.
pub open spec fn admitted(
    walker: WalkerModel,
    relative: Seq<u8>,
    name: Seq<u8>,
    depth: int,
) -> bool {
    &&& match walker.options.max_depth {
        Some(limit) => depth <= limit,
        None => true,
    }
    &&& !(walker.options.skip_hidden && is_hidden(relative, walker.syntax))
    &&& !is_git_directory(walker, name)
}

/// Whether one of the patterns selects a path.
pub open spec fn any_selects(
    patterns: Seq<Traversal>,
    relative: Seq<u8>,
    is_dir: bool,
    mode: WildcardMode,
) -> bool {
    exists|i: int|
        0 <= i < patterns.len() && pattern_selects(
            #[trigger] patterns[i],
            relative,
            is_dir,
            mode,
        )
}

/// Whether one of the excludes covers everything below a path.
pub open spec fn any_covers(patterns: Seq<Traversal>, relative: Seq<u8>, mode: WildcardMode) -> bool {
    exists|i: int|
        0 <= i < patterns.len() && pattern_covers(#[trigger] patterns[i], relative, mode)
}

/// Whether one of the includes can name something hidden below a path.
pub open spec fn any_reaches_hidden(patterns: Seq<Traversal>, relative: Seq<u8>) -> bool {
    exists|i: int|
        0 <= i < patterns.len() && pattern_may_reach_hidden(#[trigger] patterns[i], relative)
}

/// Whether an excluded directory's contents may be selected by an include.
pub open spec fn re_admits(
    walker: WalkerModel,
    root: RootModel,
    relative: Seq<u8>,
    depth: int,
) -> bool {
    root.includes.len() > 0 && above_limit(walker.options, depth) && may_descend(root, relative)
}

/// Whether a failure to follow a link shows that nothing can be below it.
pub open spec fn leads_nowhere(kind: FailureKind) -> bool {
    kind == FailureKind::NotFound || kind == FailureKind::NotADirectory || kind
        == FailureKind::FilesystemLoop
}

/// Whether the excludes close a directory. Without includes every exclude that
/// rejects it does. With includes only one that covers the whole subtree does,
/// unless an include can name something hidden there, which wildcards leave
/// alone.
pub open spec fn is_pruned(
    root: RootModel,
    relative: Seq<u8>,
    excluded: bool,
    mode: WildcardMode,
) -> bool {
    let covered = any_covers(root.excludes, relative, mode);
    if root.includes.len() == 0 {
        excluded || covered
    } else {
        covered && !any_reaches_hidden(root.includes, relative)
    }
}

/// Whether an entry that survived the traversal filters is part of the result.
/// `kind_is_dir` is what the kind filters count it as: a directory, a file, or
/// neither.
pub open spec fn is_emitted(
    walker: WalkerModel,
    root: RootModel,
    relative: Seq<u8>,
    is_dir: bool,
    kind_is_dir: Option<bool>,
    git_ignored: bool,
) -> bool {
    &&& !git_ignored
    &&& walker.options.directories_only ==> kind_is_dir == Some(true)
    &&& walker.options.files_only ==> kind_is_dir == Some(false)
    &&& root.includes.len() == 0 || any_selects(
        root.includes,
        relative,
        is_dir,
        walker.wildcard_mode,
    )
}

/// An entry in its place.
pub ghost struct Candidate {
    pub root: int,
    pub path: Seq<u8>,
    pub listed: Listed,
    /// The ignore rules in force, the innermost first.
    pub chain: Seq<SetModel>,
    /// How the rules see the walk's paths.
    pub anchor: Option<Anchor>,
    /// How deep the entry sits below its root.
    pub depth: int,
}

/// The part of a path below its root.
pub open spec fn relative_path(root: RootModel, path: Seq<u8>, syntax: Syntax) -> Seq<u8> {
    if pushed_start(root.path, syntax) <= path.len() {
        path.skip(pushed_start(root.path, syntax))
    } else {
        Seq::empty()
    }
}

/// Whether the ignore rules ignore an entry, taken as a directory or not.
pub open spec fn is_git_ignored(candidate: Candidate, is_dir: bool) -> bool {
    chain_verdict(candidate.chain, anchored(candidate.anchor, candidate.path), is_dir) == Some(true)
}

/// What an entry means once it is settled whether it is a directory.
pub open spec fn settled(
    walker: WalkerModel,
    candidate: Candidate,
    is_dir: bool,
    target: Option<Result<Metadata, FailureKind>>,
    own: Option<Result<Metadata, FailureKind>>,
) -> EntryAction {
    let root = walker.roots[candidate.root];
    let relative = relative_path(root, candidate.path, walker.syntax);
    let options = walker.options;
    let excluded = any_selects(root.excludes, relative, is_dir, walker.wildcard_mode);
    let git_ignored = is_git_ignored(candidate, is_dir);
    let descend = is_dir && !git_ignored && !is_pruned(
        root,
        relative,
        excluded,
        walker.wildcard_mode,
    ) && above_limit(options, candidate.depth) && may_descend(root, relative);
    let asks_kind = options.resolve_symlink_kind && candidate.listed.is_symlink
        && !options.follow_symlinks && (options.files_only || options.directories_only);
    if !is_dir && (excluded || git_ignored || !may_select_file(root, relative)) {
        EntryAction::Skip
    } else if asks_kind && target is None {
        EntryAction::Ask(Question::Target)
    } else if asks_kind && target->0 is Err && target->0->Err_0 != FailureKind::NotFound {
        EntryAction::Failed { question: Question::Target, descend: false }
    } else {
        let kind_is_dir = if !asks_kind {
            Some(is_dir)
        } else {
            match target->0 {
                Ok(metadata) => Some(metadata.is_dir),
                Err(_) => None,
            }
        };
        if excluded || !is_emitted(walker, root, relative, is_dir, kind_is_dir, git_ignored) {
            if descend {
                EntryAction::Descend
            } else {
                EntryAction::Skip
            }
        } else if options.metadata && own is None {
            EntryAction::Ask(Question::Own)
        } else if options.metadata && own->0 is Err {
            EntryAction::Failed { question: Question::Own, descend }
        } else {
            let emitted = EmittedEntry {
                is_dir,
                is_symlink: candidate.listed.is_symlink,
                depth: candidate.depth as usize,
                metadata: if options.metadata {
                    Some(own->0->Ok_0)
                } else {
                    None
                },
            };
            if descend {
                EntryAction::DescendAndEmit(emitted)
            } else {
                EntryAction::Emit(emitted)
            }
        }
    }
}

/// What an entry means, given the answers so far.
pub open spec fn classified(
    walker: WalkerModel,
    candidate: Candidate,
    target: Option<Result<Metadata, FailureKind>>,
    own: Option<Result<Metadata, FailureKind>>,
) -> EntryAction {
    let root = walker.roots[candidate.root];
    let relative = relative_path(root, candidate.path, walker.syntax);
    let listed = candidate.listed;
    let follows = listed.is_symlink && walker.options.follow_symlinks;
    let excluded = any_selects(root.excludes, relative, listed.is_dir, walker.wildcard_mode);
    if !admitted(walker, relative, listed.name, candidate.depth) {
        EntryAction::Skip
    } else if !listed.is_dir && excluded && !(follows && re_admits(
        walker,
        root,
        relative,
        candidate.depth,
    )) {
        EntryAction::Skip
    } else if !listed.is_dir && is_git_ignored(candidate, false) {
        EntryAction::Skip
    } else if !follows {
        settled(walker, candidate, listed.is_dir, target, own)
    } else {
        match target {
            None => EntryAction::Ask(Question::Target),
            Some(Ok(metadata)) => settled(walker, candidate, metadata.is_dir, target, own),
            Some(Err(kind)) => if excluded && leads_nowhere(kind) {
                EntryAction::Skip
            } else {
                EntryAction::Failed { question: Question::Target, descend: false }
            },
        }
    }
}

/// Whether some component of a path starts with a period.
pub fn has_hidden_component(path: &[u8], syntax: Syntax) -> (result: bool)
    ensures
        result == is_hidden(path@, syntax),
{
    let mut i: usize = 0;
    while i < path.len()
        invariant
            i <= path@.len(),
            forall|j: int| 0 <= j < i ==> !#[trigger] hidden_at(path@, j, syntax),
        decreases path@.len() - i,
    {
        if path[i] == DOT && (i == 0 || is_path_separator(path[i - 1], syntax)) {
            assert(hidden_at(path@, i as int, syntax));
            return true;
        }
        i += 1;
    }
    false
}

/// Whether an entry is the repository's own directory, and left out as such.
fn should_skip_git_directory(walker: &Walker, name: &[u8]) -> (result: bool)
    ensures
        result == is_git_directory(walker.model(), name@),
{
    walker.respects_git_ignore() && !walker.walk_options().keep_git_dir && same(
        name,
        GIT_DIRECTORY.as_bytes(),
    )
}

fn one_selects(
    patterns: &Vec<TraversalPattern>,
    relative: &[u8],
    is_dir: bool,
    mode: WildcardMode,
) -> (result: bool)
    ensures
        result == any_selects(models(patterns@), relative@, is_dir, mode),
{
    let ghost all = models(patterns@);
    let mut i: usize = 0;
    while i < patterns.len()
        invariant
            i <= patterns@.len(),
            all == models(patterns@),
            forall|j: int|
                0 <= j < i ==> !pattern_selects(#[trigger] all[j], relative@, is_dir, mode),
        decreases patterns@.len() - i,
    {
        assert(all[i as int] == patterns@[i as int].model());
        if patterns[i].matches(relative, is_dir, mode) {
            return true;
        }
        i += 1;
    }
    false
}

fn one_covers(patterns: &Vec<TraversalPattern>, relative: &[u8], mode: WildcardMode) -> (result: bool)
    ensures
        result == any_covers(models(patterns@), relative@, mode),
{
    let ghost all = models(patterns@);
    let mut i: usize = 0;
    while i < patterns.len()
        invariant
            i <= patterns@.len(),
            all == models(patterns@),
            forall|j: int| 0 <= j < i ==> !pattern_covers(#[trigger] all[j], relative@, mode),
        decreases patterns@.len() - i,
    {
        assert(all[i as int] == patterns@[i as int].model());
        if patterns[i].covers_subtree(relative, mode) {
            return true;
        }
        i += 1;
    }
    false
}

fn one_reaches_hidden(patterns: &Vec<TraversalPattern>, relative: &[u8]) -> (result: bool)
    ensures
        result == any_reaches_hidden(models(patterns@), relative@),
{
    let ghost all = models(patterns@);
    let mut i: usize = 0;
    while i < patterns.len()
        invariant
            i <= patterns@.len(),
            all == models(patterns@),
            forall|j: int| 0 <= j < i ==> !pattern_may_reach_hidden(#[trigger] all[j], relative@),
        decreases patterns@.len() - i,
    {
        assert(all[i as int] == patterns@[i as int].model());
        if patterns[i].could_match_hidden_descendant(relative) {
            return true;
        }
        i += 1;
    }
    false
}

/// Whether an entry that survived the traversal filters is part of the result.
fn should_emit(
    walker: &Walker,
    root: usize,
    is_dir: bool,
    kind_is_dir: Option<bool>,
    relative: &[u8],
    git_ignored: bool,
) -> (result: bool)
    requires
        root < walker.model().roots.len(),
    ensures
        result == is_emitted(
            walker.model(),
            walker.model().roots[root as int],
            relative@,
            is_dir,
            kind_is_dir,
            git_ignored,
        ),
{
    if git_ignored {
        return false;
    }
    let options = walker.walk_options();
    let counts_as_directory = match kind_is_dir {
        Some(value) => value,
        None => false,
    };
    let counts_as_file = match kind_is_dir {
        Some(value) => !value,
        None => false,
    };
    if options.directories_only && !counts_as_directory {
        return false;
    }
    if options.files_only && !counts_as_file {
        return false;
    }
    let plan = walker.plan(root);
    let includes = plan.includes();
    assert(includes@.len() == plan.model().includes.len());
    includes.len() == 0 || one_selects(includes, relative, is_dir, walker.mode())
}

/// Whether the excludes close a directory.
fn excludes_close(walker: &Walker, root: usize, relative: &[u8], excluded: bool) -> (result: bool)
    requires
        root < walker.model().roots.len(),
    ensures
        result == is_pruned(
            walker.model().roots[root as int],
            relative@,
            excluded,
            walker.model().wildcard_mode,
        ),
{
    let plan = walker.plan(root);
    let includes = plan.includes();
    let covered = one_covers(plan.excludes(), relative, walker.mode());
    assert(includes@.len() == plan.model().includes.len());
    if includes.len() == 0 {
        excluded || covered
    } else {
        covered && !one_reaches_hidden(includes, relative)
    }
}

/// What an entry means once it is settled whether it is a directory.
fn settle(
    walker: &Walker,
    root: usize,
    path: &[u8],
    relative: &[u8],
    entry: &ListedEntry,
    ignores: &IgnoreScope,
    depth: usize,
    is_dir: bool,
    target: &Answer,
    own: &Answer,
) -> (result: EntryAction)
    requires
        root < walker.model().roots.len(),
        relative@ == relative_path(walker.model().roots[root as int], path@, walker.model().syntax),
    ensures
        result == settled(
            walker.model(),
            Candidate {
                root: root as int,
                path: path@,
                listed: entry@,
                chain: ignores.chain(),
                anchor: ignores.anchor(),
                depth: depth as int,
            },
            is_dir,
            said(*target),
            said(*own),
        ),
{
    let options = walker.walk_options();
    let plan = walker.plan(root);
    let excluded = one_selects(plan.excludes(), relative, is_dir, walker.mode());
    let git_ignored = ignores.is_ignored(path, is_dir);
    if !is_dir && (excluded || git_ignored || !walker.may_include_file(root, relative)) {
        return EntryAction::Skip;
    }
    let descend = is_dir && !git_ignored && !excludes_close(walker, root, relative, excluded)
        && walker.may_descend_at(root, depth, relative);
    let asks_kind = options.resolve_symlink_kind && entry.is_symlink() && !options.follow_symlinks
        && (options.files_only || options.directories_only);
    let kind_is_dir = if asks_kind {
        match target {
            None => return EntryAction::Ask(Question::Target),
            Some(Ok(metadata)) => Some(metadata.is_dir),
            Some(Err(failure)) => match failure.kind {
                FailureKind::NotFound => None,
                _ => return EntryAction::Failed { question: Question::Target, descend: false },
            },
        }
    } else {
        Some(is_dir)
    };
    if excluded || !should_emit(walker, root, is_dir, kind_is_dir, relative, git_ignored) {
        return if descend {
            EntryAction::Descend
        } else {
            EntryAction::Skip
        };
    }
    let metadata = if options.metadata {
        match own {
            None => return EntryAction::Ask(Question::Own),
            Some(Ok(metadata)) => Some(*metadata),
            Some(Err(_)) => return EntryAction::Failed { question: Question::Own, descend },
        }
    } else {
        None
    };
    let emitted = EmittedEntry { is_dir, is_symlink: entry.is_symlink(), depth, metadata };
    if descend {
        EntryAction::DescendAndEmit(emitted)
    } else {
        EntryAction::Emit(emitted)
    }
}

/// Decides what one directory entry means for the walk.
///
/// `path` is the entry's whole path, and `directory_depth` how deep the
/// directory that holds it sits below the walk root. `target` and `own` are the
/// answers to what was asked about the entry so far: the caller starts with
/// none, and comes back with each answer it is sent for.
pub fn classify_entry(
    walker: &Walker,
    root: usize,
    path: &[u8],
    entry: &ListedEntry,
    ignores: &IgnoreScope,
    directory_depth: usize,
    target: &Answer,
    own: &Answer,
) -> (result: EntryAction)
    requires
        root < walker.model().roots.len(),
        directory_depth < usize::MAX,
    ensures
        result == classified(
            walker.model(),
            Candidate {
                root: root as int,
                path: path@,
                listed: entry@,
                chain: ignores.chain(),
                anchor: ignores.anchor(),
                depth: directory_depth + 1,
            },
            said(*target),
            said(*own),
        ),
{
    let options = walker.walk_options();
    let plan = walker.plan(root);
    let root_path = plan.path();
    let follows_separator = root_path.len() == 0 || root_path[root_path.len() - 1]
        == SLASH || bare_drive(root_path, walker.syntax());
    let start: usize = if path.len() < root_path.len() || (!follows_separator && path.len()
        == root_path.len()) {
        path.len()
    } else if follows_separator {
        root_path.len()
    } else {
        root_path.len() + 1
    };
    let relative = slice_subrange(path, start, path.len());
    assert(relative@ =~= relative_path(plan.model(), path@, walker.model().syntax));
    let depth: usize = directory_depth + 1;
    if let Some(limit) = options.max_depth {
        if depth > limit {
            return EntryAction::Skip;
        }
    }
    if options.skip_hidden && has_hidden_component(relative, walker.syntax()) {
        return EntryAction::Skip;
    }
    if should_skip_git_directory(walker, entry.name()) {
        return EntryAction::Skip;
    }
    let is_dir = entry.is_dir();
    let follows = entry.is_symlink() && options.follow_symlinks;
    let excluded = one_selects(plan.excludes(), relative, is_dir, walker.mode());
    let includes = plan.includes();
    assert(includes@.len() == plan.model().includes.len());
    if !is_dir && excluded && !(follows && includes.len() > 0 && walker.may_descend_at(
        root,
        depth,
        relative,
    )) {
        return EntryAction::Skip;
    }
    if !is_dir && ignores.is_ignored(path, false) {
        return EntryAction::Skip;
    }
    if !follows {
        return settle(walker, root, path, relative, entry, ignores, depth, is_dir, target, own);
    }
    match target {
        None => EntryAction::Ask(Question::Target),
        Some(Ok(metadata)) => settle(
            walker,
            root,
            path,
            relative,
            entry,
            ignores,
            depth,
            metadata.is_dir,
            target,
            own,
        ),
        Some(Err(failure)) => {
            let nowhere = match failure.kind {
                FailureKind::NotFound
                | FailureKind::NotADirectory
                | FailureKind::FilesystemLoop => true,
                _ => false,
            };
            if excluded && nowhere {
                EntryAction::Skip
            } else {
                EntryAction::Failed { question: Question::Target, descend: false }
            }
        },
    }
}

/// Whether an action emits, or traverses into, its entry.
pub open spec fn keeps(action: EntryAction) -> bool {
    match action {
        EntryAction::Descend | EntryAction::Emit(_) | EntryAction::DescendAndEmit(_) => true,
        EntryAction::Failed { descend, .. } => descend,
        _ => false,
    }
}

/// Whether an action traverses into its entry.
pub open spec fn descends(action: EntryAction) -> bool {
    match action {
        EntryAction::Descend | EntryAction::DescendAndEmit(_) => true,
        EntryAction::Failed { descend, .. } => descend,
        _ => false,
    }
}

/// The entry an action emits.
pub open spec fn emits(action: EntryAction) -> Option<EmittedEntry> {
    match action {
        EntryAction::Emit(entry) | EntryAction::DescendAndEmit(entry) => Some(entry),
        _ => None,
    }
}

/// An entry's own metadata is asked for only where the entry is emitted.
pub proof fn law_only_emitted_entries_are_asked_for_metadata(
    walker: WalkerModel,
    candidate: Candidate,
    target: Option<Result<Metadata, FailureKind>>,
    metadata: Metadata,
)
    requires
        classified(walker, candidate, target, None) == EntryAction::Ask(Question::Own),
    ensures
        emits(classified(walker, candidate, target, Some(Ok(metadata)))) is Some,
        emits(classified(walker, candidate, target, Some(Ok(metadata))))->0.metadata == Some(
            metadata,
        ),
{
}

/// A failed question prunes no subtree: where the entry would have been
/// traversed into, it still is.
pub proof fn law_a_failed_answer_prunes_no_subtree(
    walker: WalkerModel,
    candidate: Candidate,
    target: Option<Result<Metadata, FailureKind>>,
    metadata: Metadata,
    kind: FailureKind,
)
    requires
        classified(walker, candidate, target, None) == EntryAction::Ask(Question::Own),
    ensures
        descends(classified(walker, candidate, target, Some(Err(kind)))) == descends(
            classified(walker, candidate, target, Some(Ok(metadata))),
        ),
{
}

/// What an exclude selects is never emitted.
pub proof fn law_nothing_excluded_is_emitted(
    walker: WalkerModel,
    candidate: Candidate,
    target: Option<Result<Metadata, FailureKind>>,
    own: Option<Result<Metadata, FailureKind>>,
)
    ensures
        match emits(classified(walker, candidate, target, own)) {
            Some(entry) => !any_selects(
                walker.roots[candidate.root].excludes,
                relative_path(walker.roots[candidate.root], candidate.path, walker.syntax),
                entry.is_dir,
                walker.wildcard_mode,
            ),
            None => true,
        },
{
}

/// Where there are includes, only what one of them selects is emitted.
pub proof fn law_only_included_entries_are_emitted(
    walker: WalkerModel,
    candidate: Candidate,
    target: Option<Result<Metadata, FailureKind>>,
    own: Option<Result<Metadata, FailureKind>>,
)
    requires
        walker.roots[candidate.root].includes.len() > 0,
    ensures
        match emits(classified(walker, candidate, target, own)) {
            Some(entry) => any_selects(
                walker.roots[candidate.root].includes,
                relative_path(walker.roots[candidate.root], candidate.path, walker.syntax),
                entry.is_dir,
                walker.wildcard_mode,
            ),
            None => true,
        },
{
}

/// What the ignore rules ignore is neither emitted nor entered.
pub proof fn law_nothing_ignored_is_emitted_or_entered(
    walker: WalkerModel,
    candidate: Candidate,
    target: Option<Result<Metadata, FailureKind>>,
    own: Option<Result<Metadata, FailureKind>>,
)
    ensures
        match emits(classified(walker, candidate, target, own)) {
            Some(entry) => !is_git_ignored(candidate, entry.is_dir),
            None => true,
        },
        descends(classified(walker, candidate, target, own)) ==> !is_git_ignored(candidate, true),
{
}

/// A depth limit is kept: nothing below it is emitted, and nothing at it is
/// entered.
pub proof fn law_the_depth_limit_is_kept(
    walker: WalkerModel,
    candidate: Candidate,
    target: Option<Result<Metadata, FailureKind>>,
    own: Option<Result<Metadata, FailureKind>>,
    limit: usize,
)
    requires
        walker.options.max_depth == Some(limit),
    ensures
        keeps(classified(walker, candidate, target, own)) ==> candidate.depth <= limit,
        descends(classified(walker, candidate, target, own)) ==> candidate.depth < limit,
{
}

/// With hidden entries skipped, none is emitted or entered, whatever the
/// patterns say.
pub proof fn law_skipped_hidden_entries_stay_out(
    walker: WalkerModel,
    candidate: Candidate,
    target: Option<Result<Metadata, FailureKind>>,
    own: Option<Result<Metadata, FailureKind>>,
)
    requires
        walker.options.skip_hidden,
        is_hidden(
            relative_path(walker.roots[candidate.root], candidate.path, walker.syntax),
            walker.syntax,
        ),
    ensures
        classified(walker, candidate, target, own) == EntryAction::Skip,
{
}

/// Without includes, a directory that an exclude rejects is never opened.
pub proof fn law_excluded_directories_without_includes_are_never_opened(
    walker: WalkerModel,
    candidate: Candidate,
    target: Option<Result<Metadata, FailureKind>>,
    own: Option<Result<Metadata, FailureKind>>,
)
    requires
        walker.roots[candidate.root].includes.len() == 0,
        any_selects(
            walker.roots[candidate.root].excludes,
            relative_path(walker.roots[candidate.root], candidate.path, walker.syntax),
            true,
            walker.wildcard_mode,
        ),
    ensures
        !descends(classified(walker, candidate, target, own)),
{
}

/// An excluded directory is still entered for a descendant that an include can
/// select, unless an exclude covers all of it.
pub proof fn law_includes_re_admit_descendants(
    walker: WalkerModel,
    candidate: Candidate,
    target: Option<Result<Metadata, FailureKind>>,
    own: Option<Result<Metadata, FailureKind>>,
)
    requires
        candidate.listed.is_dir,
        !candidate.listed.is_symlink,
        ({
            let root = walker.roots[candidate.root];
            let relative = relative_path(root, candidate.path, walker.syntax);
            &&& admitted(walker, relative, candidate.listed.name, candidate.depth)
            &&& any_selects(root.excludes, relative, true, walker.wildcard_mode)
            &&& !is_git_ignored(candidate, true)
            &&& re_admits(walker, root, relative, candidate.depth)
            &&& !any_covers(root.excludes, relative, walker.wildcard_mode)
                || any_reaches_hidden(root.includes, relative)
        }),
    ensures
        classified(walker, candidate, target, own) == EntryAction::Descend,
{
}

/// The two kind filters and a link: with its kind resolved, a link is kept by
/// what it points at, and a dangling one by neither filter.
pub proof fn law_resolved_links_count_as_what_they_point_at(
    walker: WalkerModel,
    candidate: Candidate,
    target: Option<Result<Metadata, FailureKind>>,
    own: Option<Result<Metadata, FailureKind>>,
)
    requires
        walker.options.resolve_symlink_kind,
        !walker.options.follow_symlinks,
        walker.options.files_only || walker.options.directories_only,
        candidate.listed.is_symlink,
    ensures
        emits(classified(walker, candidate, target, own)) is Some ==> match target {
            Some(Ok(metadata)) => (walker.options.files_only ==> !metadata.is_dir) && (
            walker.options.directories_only ==> metadata.is_dir),
            _ => false,
        },
{
}

/// An entry means in a walk of several roots what it means in a walk of its own
/// root alone.
pub proof fn law_a_walk_of_one_root_reads_an_entry_alike(
    walker: WalkerModel,
    other: WalkerModel,
    candidate: Candidate,
    root: int,
    target: Option<Result<Metadata, FailureKind>>,
    own: Option<Result<Metadata, FailureKind>>,
)
    requires
        walker.roots[root] == other.roots[candidate.root],
        walker == (WalkerModel {
            roots: walker.roots,
            include_sources: walker.include_sources,
            exclude_sources: walker.exclude_sources,
            ..other
        }),
    ensures
        classified(walker, Candidate { root, ..candidate }, target, own) == classified(
            other,
            candidate,
            target,
            own,
        ),
{
}

/// Answers that nobody asked for change nothing: what an entry means once
/// nothing more is asked stays what it means, whatever else is known.
pub proof fn law_answers_nobody_asked_for_change_nothing(
    walker: WalkerModel,
    candidate: Candidate,
    target: Result<Metadata, FailureKind>,
    own: Result<Metadata, FailureKind>,
)
    ensures
        !(classified(walker, candidate, None, None) is Ask) ==> classified(
            walker,
            candidate,
            None,
            None,
        ) == classified(walker, candidate, Some(target), Some(own)),
        !(classified(walker, candidate, Some(target), None) is Ask) ==> classified(
            walker,
            candidate,
            Some(target),
            None,
        ) == classified(walker, candidate, Some(target), Some(own)),
        classified(walker, candidate, None, None) == EntryAction::Ask(Question::Own) ==> classified(
            walker,
            candidate,
            None,
            Some(own),
        ) == classified(walker, candidate, Some(target), Some(own)),
        !(classified(walker, candidate, Some(target), Some(own)) is Ask),
{
}

/// Emission is complete and exact. Once its questions are answered, an entry is
/// emitted exactly where its depth and its name let it in, no exclude selects
/// it, no ignore rule ignores it, an include selects it where there are any,
/// and it counts as the kind that the filters ask for. A link that is neither
/// followed nor resolved counts as no directory.
///
/// A file's extension has to be one that the includes allow, and a link that is
/// followed has to pass the excludes and the ignore rules as a link before it
/// passes them as what it points at.
pub proof fn law_emission_is_complete(
    walker: WalkerModel,
    candidate: Candidate,
    target: Option<Result<Metadata, FailureKind>>,
    own: Option<Result<Metadata, FailureKind>>,
)
    requires
        candidate.listed.is_symlink ==> !candidate.listed.is_dir && target is Some && target->0
            is Ok,
        walker.options.metadata ==> own is Some && own->0 is Ok,
    ensures
        ({
            let options = walker.options;
            let listed = candidate.listed;
            let root = walker.roots[candidate.root];
            let mode = walker.wildcard_mode;
            let relative = relative_path(root, candidate.path, walker.syntax);
            let followed = listed.is_symlink && options.follow_symlinks;
            let is_dir = if followed {
                target->0->Ok_0.is_dir
            } else {
                listed.is_dir
            };
            let counts_as_directory = if listed.is_symlink && (options.follow_symlinks
                || options.resolve_symlink_kind) {
                target->0->Ok_0.is_dir
            } else {
                listed.is_dir && !listed.is_symlink
            };
            let reached = exists|i: int|
                0 <= i < root.includes.len() && pattern_may_reach(
                    #[trigger] root.includes[i],
                    relative,
                );
            let emitted = {
                &&& options.max_depth is Some ==> candidate.depth <= options.max_depth->0
                &&& options.skip_hidden ==> !is_hidden(relative, walker.syntax)
                &&& walker.respect_git_ignore && !options.keep_git_dir ==> listed.name
                    != encode_utf8(".git"@)
                &&& !any_selects(root.excludes, relative, is_dir, mode)
                &&& !is_git_ignored(candidate, is_dir)
                &&& root.includes.len() > 0 ==> any_selects(root.includes, relative, is_dir, mode)
                &&& options.files_only ==> !counts_as_directory
                &&& options.directories_only ==> counts_as_directory
                &&& is_dir || may_select_file(root, relative)
                &&& followed ==> !is_git_ignored(candidate, false) && (!any_selects(
                    root.excludes,
                    relative,
                    false,
                    mode,
                ) || (root.includes.len() > 0 && (options.max_depth is Some ==> candidate.depth
                    < options.max_depth->0) && reached))
            };
            emits(classified(walker, candidate, target, own)) == (if emitted {
                Some(
                    EmittedEntry {
                        is_dir,
                        is_symlink: listed.is_symlink,
                        depth: candidate.depth as usize,
                        metadata: if options.metadata {
                            Some(own->0->Ok_0)
                        } else {
                            None
                        },
                    },
                )
            } else {
                None
            })
        }),
{
}

/// Descent is complete and exact. Once its questions are answered, an entry is
/// entered exactly where it is a directory, or a followed link to one, that its
/// depth and its name let in, that lies above the depth limit, that no ignore
/// rule ignores and that the patterns leave open. Without includes every
/// exclude that selects or covers it closes it. With includes one of them has
/// to reach below it, and an exclude closes it only by covering all of it while
/// no include can name something hidden there.
pub proof fn law_descent_is_complete(
    walker: WalkerModel,
    candidate: Candidate,
    target: Option<Result<Metadata, FailureKind>>,
    own: Option<Result<Metadata, FailureKind>>,
)
    requires
        candidate.listed.is_symlink ==> !candidate.listed.is_dir && target is Some && target->0
            is Ok,
        walker.options.metadata ==> own is Some,
    ensures
        ({
            let options = walker.options;
            let listed = candidate.listed;
            let root = walker.roots[candidate.root];
            let mode = walker.wildcard_mode;
            let relative = relative_path(root, candidate.path, walker.syntax);
            let followed = listed.is_symlink && options.follow_symlinks;
            let covered = exists|i: int|
                0 <= i < root.excludes.len() && pattern_covers(
                    #[trigger] root.excludes[i],
                    relative,
                    mode,
                );
            let reached = exists|i: int|
                0 <= i < root.includes.len() && pattern_may_reach(
                    #[trigger] root.includes[i],
                    relative,
                );
            descends(classified(walker, candidate, target, own)) <==> {
                &&& if followed {
                    target->0->Ok_0.is_dir
                } else {
                    listed.is_dir
                }
                &&& options.max_depth is Some ==> candidate.depth < options.max_depth->0
                &&& options.skip_hidden ==> !is_hidden(relative, walker.syntax)
                &&& walker.respect_git_ignore && !options.keep_git_dir ==> listed.name
                    != encode_utf8(".git"@)
                &&& !is_git_ignored(candidate, true)
                &&& root.includes.len() == 0 ==> !covered && !any_selects(
                    root.excludes,
                    relative,
                    true,
                    mode,
                )
                &&& root.includes.len() > 0 ==> reached && (!covered || any_reaches_hidden(
                    root.includes,
                    relative,
                ))
                &&& followed ==> !is_git_ignored(candidate, false) && (!any_selects(
                    root.excludes,
                    relative,
                    false,
                    mode,
                ) || root.includes.len() > 0)
            }
        }),
{
}

/// Only links are asked for what they point at, and an entry is asked for its
/// own metadata only where metadata is wanted.
pub proof fn law_questions_are_asked_where_they_matter(
    walker: WalkerModel,
    candidate: Candidate,
    target: Option<Result<Metadata, FailureKind>>,
    own: Option<Result<Metadata, FailureKind>>,
)
    ensures
        match classified(walker, candidate, target, own) {
            EntryAction::Ask(Question::Target) => {
                &&& candidate.listed.is_symlink && target is None
                &&& walker.options.follow_symlinks || (walker.options.resolve_symlink_kind && (
                walker.options.files_only || walker.options.directories_only))
            },
            EntryAction::Ask(Question::Own) => walker.options.metadata && own is None,
            EntryAction::Failed { question: Question::Target, descend } => !descend
                && candidate.listed.is_symlink && target is Some && target->0 is Err,
            EntryAction::Failed { question: Question::Own, .. } => walker.options.metadata && own
                is Some && own->0 is Err,
            _ => true,
        },
{
}

/// A link that is followed and cannot be is a failure, unless an exclude
/// selects the link and nothing can be behind it, and unless the link is left
/// out before it is asked about.
pub proof fn law_a_link_that_leads_nowhere_is_a_failure(
    walker: WalkerModel,
    candidate: Candidate,
    kind: FailureKind,
    own: Option<Result<Metadata, FailureKind>>,
)
    requires
        walker.options.follow_symlinks,
        candidate.listed.is_symlink,
        classified(walker, candidate, None, own) is Ask,
    ensures
        ({
            let root = walker.roots[candidate.root];
            let relative = relative_path(root, candidate.path, walker.syntax);
            let excluded = any_selects(
                root.excludes,
                relative,
                candidate.listed.is_dir,
                walker.wildcard_mode,
            );
            classified(walker, candidate, Some(Err(kind)), own) == (if excluded && (kind
                == FailureKind::NotFound || kind == FailureKind::NotADirectory || kind
                == FailureKind::FilesystemLoop) {
                EntryAction::Skip
            } else {
                EntryAction::Failed { question: Question::Target, descend: false }
            })
        }),
{
}

/// A path is hidden exactly where a name of it starts with a period: the first,
/// or one behind a separator.
pub proof fn law_a_hidden_path_has_a_name_with_a_period_in_front(
    front: Seq<u8>,
    rest: Seq<u8>,
    path: Seq<u8>,
    syntax: Syntax,
)
    ensures
        is_hidden(seq![DOT] + rest, syntax),
        is_hidden(front.push(SLASH).push(DOT) + rest, syntax),
        is_hidden(front.push(BACKSLASH).push(DOT) + rest, Syntax::Windows),
        is_hidden(path, syntax) ==> path[0] == DOT || exists|i: int|
            0 < i < path.len() && path[i] == DOT && (#[trigger] path[i - 1] == SLASH || (syntax
                == Syntax::Windows && path[i - 1] == BACKSLASH)),
{
    assert(hidden_at(seq![DOT] + rest, 0, syntax));
    let at = front.len() as int + 1;
    assert(hidden_at(front.push(SLASH).push(DOT) + rest, at, syntax));
    assert(hidden_at(front.push(BACKSLASH).push(DOT) + rest, at, Syntax::Windows));
    if is_hidden(path, syntax) {
        let i = choose|i: int| #[trigger] hidden_at(path, i, syntax);
        if i > 0 {
            assert(separates(path[i - 1], syntax));
        }
    }
}

/// An entry is judged by its path below its root, however the root is spelled.
pub proof fn law_an_entry_is_judged_by_its_path_below_the_root(
    root: RootModel,
    relative: Seq<u8>,
    syntax: Syntax,
)
    ensures
        relative_path(root, pushed(root.path, relative, syntax), syntax) == relative,
        root.path.len() > 0 && root.path.last() != SLASH ==> relative_path(
            root,
            root.path.push(SLASH) + relative,
            Syntax::Posix,
        ) == relative,
{
    law_the_start_depends_on_the_root_alone(root.path, relative, syntax);
    law_the_start_depends_on_the_root_alone(root.path, relative, Syntax::Posix);
}

/// One more include or exclude selects what it selects, and takes nothing from
/// what the others do: with it among them a path is selected, covered, reached
/// or allowed exactly where it was, or where the new one does it.
pub proof fn law_one_more_pattern_adds_what_it_selects(
    root: RootModel,
    pattern: Traversal,
    relative: Seq<u8>,
    is_dir: bool,
    mode: WildcardMode,
)
    ensures
        ({
            let more = RootModel {
                includes: root.includes.push(pattern),
                excludes: root.excludes.push(pattern),
                ..root
            };
            &&& any_selects(more.includes, relative, is_dir, mode) == (any_selects(
                root.includes,
                relative,
                is_dir,
                mode,
            ) || pattern_selects(pattern, relative, is_dir, mode))
            &&& any_selects(more.excludes, relative, is_dir, mode) == (any_selects(
                root.excludes,
                relative,
                is_dir,
                mode,
            ) || pattern_selects(pattern, relative, is_dir, mode))
            &&& any_covers(more.excludes, relative, mode) == (any_covers(
                root.excludes,
                relative,
                mode,
            ) || pattern_covers(pattern, relative, mode))
            &&& any_reaches_hidden(more.includes, relative) == (any_reaches_hidden(
                root.includes,
                relative,
            ) || pattern_may_reach_hidden(pattern, relative))
            &&& may_descend(more, relative) == ((root.includes.len() > 0 && may_descend(
                root,
                relative,
            )) || pattern_may_reach(pattern, relative))
            &&& may_select_file(more, relative) == ((root.includes.len() > 0 && may_select_file(
                root,
                relative,
            )) || pattern_allows_extension(pattern, relative))
        }),
        root.includes.len() == 0 ==> may_descend(root, relative) && may_select_file(root, relative)
            && !any_selects(root.includes, relative, is_dir, mode),
{
    let ins = root.includes.push(pattern);
    let outs = root.excludes.push(pattern);
    assert(ins[root.includes.len() as int] == pattern);
    assert(outs[root.excludes.len() as int] == pattern);
    assert forall|i: int| 0 <= i < root.includes.len() implies ins[i] == #[trigger] root.includes[i] by {}
    assert forall|i: int| 0 <= i < root.excludes.len() implies outs[i] == #[trigger] root.excludes[i] by {}
    if any_selects(root.includes, relative, is_dir, mode) {
        let i = choose|i: int|
            0 <= i < root.includes.len() && pattern_selects(
                #[trigger] root.includes[i],
                relative,
                is_dir,
                mode,
            );
        assert(pattern_selects(ins[i], relative, is_dir, mode));
    }
    if any_selects(root.excludes, relative, is_dir, mode) {
        let i = choose|i: int|
            0 <= i < root.excludes.len() && pattern_selects(
                #[trigger] root.excludes[i],
                relative,
                is_dir,
                mode,
            );
        assert(pattern_selects(outs[i], relative, is_dir, mode));
    }
    if any_covers(root.excludes, relative, mode) {
        let i = choose|i: int|
            0 <= i < root.excludes.len() && pattern_covers(
                #[trigger] root.excludes[i],
                relative,
                mode,
            );
        assert(pattern_covers(outs[i], relative, mode));
    }
    if any_reaches_hidden(root.includes, relative) {
        let i = choose|i: int|
            0 <= i < root.includes.len() && pattern_may_reach_hidden(
                #[trigger] root.includes[i],
                relative,
            );
        assert(pattern_may_reach_hidden(ins[i], relative));
    }
    if root.includes.len() > 0 && may_descend(root, relative) {
        let i = choose|i: int|
            0 <= i < root.includes.len() && pattern_may_reach(#[trigger] root.includes[i], relative);
        assert(pattern_may_reach(ins[i], relative));
    }
    if root.includes.len() > 0 && may_select_file(root, relative) {
        let i = choose|i: int|
            0 <= i < root.includes.len() && pattern_allows_extension(
                #[trigger] root.includes[i],
                relative,
            );
        assert(pattern_allows_extension(ins[i], relative));
    }
}

/// An entry is ignored where the deepest rules with an opinion say so, and not
/// where they re-include it or where none has an opinion.
pub proof fn law_only_a_verdict_to_ignore_ignores(candidate: Candidate, is_dir: bool)
    requires
        candidate.anchor is None,
    ensures
        chain_verdict(candidate.chain, candidate.path, is_dir) == Some(true) ==> is_git_ignored(
            candidate,
            is_dir,
        ),
        chain_verdict(candidate.chain, candidate.path, is_dir) == Some(false) ==> !is_git_ignored(
            candidate,
            is_dir,
        ),
        chain_verdict(candidate.chain, candidate.path, is_dir) is None ==> !is_git_ignored(
            candidate,
            is_dir,
        ),
{
}

/// What is filtered away costs no question: an entry that is listed as no
/// directory, and that no link is followed for, is skipped without being asked
/// about where an exclude selects it, a rule ignores it, or no include allows
/// its extension.
pub proof fn law_what_is_filtered_away_costs_no_question(
    walker: WalkerModel,
    candidate: Candidate,
    target: Option<Result<Metadata, FailureKind>>,
    own: Option<Result<Metadata, FailureKind>>,
)
    requires
        !candidate.listed.is_dir,
        !(candidate.listed.is_symlink && walker.options.follow_symlinks),
        ({
            let root = walker.roots[candidate.root];
            let relative = relative_path(root, candidate.path, walker.syntax);
            ||| any_selects(root.excludes, relative, false, walker.wildcard_mode)
            ||| is_git_ignored(candidate, false)
            ||| !may_select_file(root, relative)
        }),
    ensures
        classified(walker, candidate, target, own) == EntryAction::Skip,
{
}

/// A link whose kind is asked for counts as neither kind where it leads to
/// nothing, and is left out. Any other failure to look at what it points at is
/// reported.
pub proof fn law_a_link_to_nothing_is_of_no_kind(
    walker: WalkerModel,
    candidate: Candidate,
    kind: FailureKind,
    own: Option<Result<Metadata, FailureKind>>,
)
    requires
        walker.options.resolve_symlink_kind,
        !walker.options.follow_symlinks,
        walker.options.files_only || walker.options.directories_only,
        candidate.listed.is_symlink,
        !candidate.listed.is_dir,
        classified(walker, candidate, None, own) is Ask,
    ensures
        classified(walker, candidate, Some(Err(kind)), own) == (if kind == FailureKind::NotFound {
            EntryAction::Skip
        } else {
            EntryAction::Failed { question: Question::Target, descend: false }
        }),
{
}

} // verus!
