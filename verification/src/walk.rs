//! The serial walk: its state, and what each event does to it.
//!
//! The walk keeps its work on a stack of its own, so that arbitrarily deep
//! trees stay off the call stack. Nothing here touches the filesystem: a driver
//! takes the next task, performs what it asks for, and hands the outcome back.
use std::sync::Arc;

use vstd::prelude::*;
use vstd::slice::slice_to_vec;

use crate::bytes::same;
use crate::classify::{EmittedEntry, EntryAction, Question};
use crate::failure::Failure;
use crate::gitignore::{
    all_faults_read, anchored, ignore_faults, linked, set_read, Anchor, DirectoryReads,
    GitIgnoreAdaptation, IgnoreFault, IgnoreRead, IgnoreReadError, IgnoreScope, Place, SetModel,
};
use crate::listing::{Deferred, Listed, Listing};
use crate::literal::Syntax;
use crate::options::{
    entries_of, fault, faults_of, Entry, ErrorPolicy, Fault, Verdict, WalkEntry, WalkError,
    WalkResult,
};
use crate::paths::{is_sorting_of, sort_entries};
use crate::walker::{Walker, WalkerModel};

verus! {

/// What identifies a directory for the cycle guard: where the host has them,
/// its device and inode; elsewhere its resolved path.
#[derive(Debug)]
pub enum CycleKey {
    Inode(u64, u64),
    Path(Vec<u8>),
}

/// What a key says.
pub ghost enum Key {
    Inode(u64, u64),
    Path(Seq<u8>),
}

impl View for CycleKey {
    type V = Key;

    open spec fn view(&self) -> Key {
        match self {
            CycleKey::Inode(device, inode) => Key::Inode(*device, *inode),
            CycleKey::Path(path) => Key::Path(path@),
        }
    }
}

impl CycleKey {
    /// Whether two keys name one directory.
    pub fn is(&self, other: &CycleKey) -> (result: bool)
        ensures
            result == (self@ == other@),
    {
        match (self, other) {
            (CycleKey::Inode(device, inode), CycleKey::Inode(other_device, other_inode)) => *device
                == *other_device && *inode == *other_inode,
            (CycleKey::Path(path), CycleKey::Path(other_path)) => same(
                path.as_slice(),
                other_path.as_slice(),
            ),
            _ => false,
        }
    }
}

#[derive(Debug)]
struct AncestorLink {
    key: CycleKey,
    parent: Option<Arc<AncestorLink>>,
}

spec fn keys_of(link: Option<Arc<AncestorLink>>) -> Seq<Key>
    decreases link,
{
    match link {
        Some(link) => seq![link.key@] + keys_of(link.parent),
        None => Seq::empty(),
    }
}

/// Directories on the way from a walk root to one directory, for walks that
/// follow links.
///
/// A link may name a directory reached by a sibling path without closing a
/// loop, so a key is compared with the directory's own ancestors only.
#[derive(Debug)]
pub struct AncestorChain(Option<Arc<AncestorLink>>);

/// Whether no key occurs twice.
pub open spec fn distinct(keys: Seq<Key>) -> bool {
    forall|i: int, j: int| 0 <= i < j < keys.len() ==> keys[i] != keys[j]
}

impl Default for AncestorChain {
    fn default() -> (result: Self)
        ensures
            result.keys() == Seq::<Key>::empty(),
    {
        AncestorChain(None)
    }
}

impl Clone for AncestorChain {
    fn clone(&self) -> (result: Self)
        ensures
            result == *self,
    {
        AncestorChain(
            match &self.0 {
                Some(link) => Some(link.clone()),
                None => None,
            },
        )
    }
}

impl AncestorChain {
    /// The ancestors' keys, the innermost first.
    pub closed spec fn keys(&self) -> Seq<Key> {
        keys_of(self.0)
    }

    /// Extends the chain with `key`, unless that would revisit an ancestor and
    /// so close a cycle.
    pub fn enter(&self, key: CycleKey) -> (result: Option<Self>)
        ensures
            match result {
                Some(chain) => !self.keys().contains(key@) && chain.keys() == seq![key@]
                    + self.keys(),
                None => self.keys().contains(key@),
            },
    {
        let mut at = &self.0;
        let ghost mut passed: int = 0;
        loop
            invariant
                0 <= passed <= self.keys().len(),
                keys_of(*at) == self.keys().skip(passed),
                forall|i: int| 0 <= i < passed ==> self.keys()[i] != key@,
            ensures
                !self.keys().contains(key@),
            decreases self.keys().len() - passed,
        {
            match at {
                None => {
                    assert(self.keys().skip(passed).len() == 0);
                    break;
                },
                Some(link) => {
                    assert(keys_of(*at) =~= seq![link.key@] + keys_of(link.parent));
                    assert(self.keys().skip(passed).len() > 0);
                    assert(self.keys().skip(passed)[0] == link.key@);
                    assert(self.keys()[passed] == self.keys().skip(passed)[0]);
                    if link.key.is(&key) {
                        return None;
                    }
                    proof {
                        let rest = self.keys().skip(passed);
                        assert(rest =~= seq![link.key@] + keys_of(link.parent));
                        assert(keys_of(link.parent) =~= rest.skip(1));
                        assert(rest.skip(1) =~= self.keys().skip(passed + 1));
                        passed = passed + 1;
                    }
                    at = &link.parent;
                },
            }
        }
        let parent = match &self.0 {
            Some(link) => Some(link.clone()),
            None => None,
        };
        Some(AncestorChain(Some(Arc::new(AncestorLink { key, parent }))))
    }
}

/// No directory is its own ancestor: entering keeps the keys distinct.
pub proof fn law_no_directory_is_its_own_ancestor(keys: Seq<Key>, key: Key)
    requires
        distinct(keys),
        !keys.contains(key),
    ensures
        distinct(seq![key] + keys),
{
    let longer = seq![key] + keys;
    assert forall|i: int, j: int| 0 <= i < j < longer.len() implies longer[i] != longer[j] by {
        assert(longer[j] == keys[j - 1]);
        if i > 0 {
            assert(longer[i] == keys[i - 1]);
        }
    }
}

/// What the walk does about a failure.
#[derive(Debug, Clone, Copy, PartialEq, Eq, Structural)]
pub enum Reaction {
    Abort,
    Drop,
    Keep,
}

/// What an error policy does about a failure. A root's own failure is never
/// dropped, so that a root that cannot be read does not look like an empty
/// tree.
pub open spec fn reaction(policy: ErrorPolicy, is_root: bool) -> Reaction {
    match policy {
        ErrorPolicy::Abort => Reaction::Abort,
        ErrorPolicy::Skip => if is_root {
            Reaction::Keep
        } else {
            Reaction::Drop
        },
        ErrorPolicy::Collect => Reaction::Keep,
    }
}

/// A failure of a root is reported under every policy.
pub proof fn law_a_root_failure_is_always_reported(policy: ErrorPolicy)
    ensures
        reaction(policy, true) != Reaction::Drop,
{
}

/// A policy decides alike about every failure, but for a root's own under the
/// one that skips: one policy ends the walk, one keeps what failed, and one
/// drops it.
pub proof fn law_a_policy_treats_failures_alike(is_root: bool)
    ensures
        reaction(ErrorPolicy::Abort, is_root) == Reaction::Abort,
        reaction(ErrorPolicy::Collect, is_root) == Reaction::Keep,
        reaction(ErrorPolicy::Skip, is_root) == Reaction::Drop <==> !is_root,
        reaction(ErrorPolicy::Skip, is_root) != Reaction::Abort,
{
}

/// What an error policy does about a failure.
pub fn react(policy: ErrorPolicy, is_root: bool) -> (result: Reaction)
    ensures
        result == reaction(policy, is_root),
{
    match policy {
        ErrorPolicy::Abort => Reaction::Abort,
        ErrorPolicy::Skip => if is_root {
            Reaction::Keep
        } else {
            Reaction::Drop
        },
        ErrorPolicy::Collect => Reaction::Keep,
    }
}

/// The operation a failed ignore file is reported as.
pub const IGNORE_FILE_OPERATION: &'static str = "read_ignore";

/// The operation a failed directory read is reported as.
pub const READ_DIR_OPERATION: &'static str = "read_dir";

/// The operation a failed identification is reported as, by how the host
/// identifies a directory.
pub const METADATA_OPERATION: &'static str = "metadata";

pub const CANONICALIZE_OPERATION: &'static str = "canonicalize";

pub const SYMLINK_METADATA_OPERATION: &'static str = "symlink_metadata";

/// The operation that identifies a directory.
pub open spec fn cycle_key_operation(syntax: Syntax) -> Seq<char> {
    match syntax {
        Syntax::Posix => METADATA_OPERATION@,
        Syntax::Windows => CANONICALIZE_OPERATION@,
    }
}

/// Entries between two looks at the cancellation handle inside one directory.
pub const CANCELLATION_STRIDE: usize = 64;

/// What a failed ignore file is reported as.
pub open spec fn ignore_report(error: IgnoreFault) -> Fault {
    Fault {
        operation: IGNORE_FILE_OPERATION@,
        path: error.path,
        kind: error.kind,
        message: error.message,
    }
}

/// What failed ignore files are reported as.
pub open spec fn ignore_reports(errors: Seq<IgnoreFault>) -> Seq<Fault> {
    Seq::new(errors.len(), |i: int| ignore_report(errors[i]))
}

/// What a deferred failure is reported as.
pub open spec fn deferred_report(error: Deferred) -> Fault {
    Fault {
        operation: READ_DIR_OPERATION@,
        path: error.path,
        kind: error.kind,
        message: error.message,
    }
}

/// What deferred failures are reported as.
pub open spec fn deferred_reports(errors: Seq<Deferred>) -> Seq<Fault> {
    Seq::new(errors.len(), |i: int| deferred_report(errors[i]))
}

/// How a directory is opened once its turn comes. `C` is what the driver needs
/// to open it relative to its parent.
#[derive(Debug)]
pub enum DirectoryOpen<C> {
    /// By its path.
    ByPath,
    /// Relative to its parent.
    Relative(C),
    /// Again, after it was set aside; device and inode tell whether it is still
    /// the same one.
    Suspended(u64, u64),
}

/// What a queued child keeps of its parent's capability: nothing where later
/// operations resolve its path anyway.
pub fn child_directory_open<C>(capability: Option<C>, allow_relative: bool) -> (result:
    DirectoryOpen<C>)
    ensures
        result == match capability {
            Some(capability) if allow_relative => DirectoryOpen::Relative(capability),
            _ => DirectoryOpen::ByPath,
        },
{
    match capability {
        Some(capability) if allow_relative => DirectoryOpen::Relative(capability),
        _ => DirectoryOpen::ByPath,
    }
}

/// A directory the walk still has to visit.
#[derive(Debug)]
pub struct DirectoryTask<C> {
    pub path: Vec<u8>,
    pub open: DirectoryOpen<C>,
    /// Which of the walk's roots this directory sits under.
    pub root: usize,
    /// The directories between the walk root and this directory's parent, for
    /// walks that follow links.
    pub ancestors: AncestorChain,
    /// Components between the walk root and this directory.
    pub depth: usize,
    pub ignores: IgnoreScope,
    /// Failures from before the directory's turn, reported once.
    pub ignore_errors: Vec<IgnoreReadError>,
}

/// What is known of a directory in its place.
pub ghost struct TaskModel<C> {
    pub path: Seq<u8>,
    pub open: DirectoryOpen<C>,
    pub root: int,
    pub ancestors: Seq<Key>,
    pub depth: int,
    /// The ignore rules in force, the innermost first.
    pub chain: Seq<SetModel>,
    pub adapts: GitIgnoreAdaptation,
    /// How the rules see the walk's paths.
    pub anchor: Option<Anchor>,
    pub errors: Seq<IgnoreFault>,
}

/// The directory at `path`, found in `directory`.
pub open spec fn child_of<C>(
    directory: TaskModel<C>,
    path: Seq<u8>,
    open: DirectoryOpen<C>,
) -> TaskModel<C> {
    TaskModel { path, open, depth: directory.depth + 1, errors: Seq::empty(), ..directory }
}

impl<C> DirectoryTask<C> {
    /// What the task says of its directory.
    pub open spec fn model(&self) -> TaskModel<C> {
        TaskModel {
            path: self.path@,
            open: self.open,
            root: self.root as int,
            ancestors: self.ancestors.keys(),
            depth: self.depth as int,
            chain: self.ignores.chain(),
            adapts: self.ignores.adapts(),
            anchor: self.ignores.anchor(),
            errors: ignore_faults(self.ignore_errors@),
        }
    }

    /// The task of a root.
    pub fn for_root(
        path: Vec<u8>,
        root: usize,
        ignores: IgnoreScope,
        ignore_errors: Vec<IgnoreReadError>,
    ) -> (result: Self)
        ensures
            result.model() == (TaskModel {
                path: path@,
                open: DirectoryOpen::<C>::ByPath,
                root: root as int,
                ancestors: Seq::<Key>::empty(),
                depth: 0,
                chain: ignores.chain(),
                adapts: ignores.adapts(),
                anchor: ignores.anchor(),
                errors: ignore_faults(ignore_errors@),
            }),
    {
        DirectoryTask {
            path,
            open: DirectoryOpen::ByPath,
            root,
            ancestors: AncestorChain::default(),
            depth: 0,
            ignores,
            ignore_errors,
        }
    }
}

/// One suspended listing. A child directory is scheduled on its own, and then
/// this frame goes on with its next entry.
#[derive(Debug)]
pub struct DirectoryFrame<C> {
    pub task: DirectoryTask<C>,
    pub ignores: IgnoreScope,
    pub listing: Listing,
    pub next_entry: usize,
}

/// A directory whose entries are being delivered.
pub ghost struct FrameModel<C> {
    /// The directory, with its own ignore rules in force.
    pub at: TaskModel<C>,
    pub listed: Seq<Listed>,
    pub deferred: Seq<Deferred>,
    pub next_entry: int,
}

/// A frame that waits for a child of it to be walked.
pub open spec fn set_aside<C>(
    frame: FrameModel<C>,
    identity: Option<(u64, u64)>,
) -> FrameModel<C> {
    match identity {
        Some((device, inode)) => FrameModel {
            at: TaskModel { open: DirectoryOpen::Suspended(device, inode), ..frame.at },
            ..frame
        },
        None => frame,
    }
}

/// A frame that goes on.
pub open spec fn taken_up<C>(frame: FrameModel<C>) -> FrameModel<C> {
    FrameModel { at: TaskModel { open: DirectoryOpen::ByPath, ..frame.at }, ..frame }
}

impl<C> DirectoryFrame<C> {
    /// What the frame delivers.
    pub open spec fn model(&self) -> FrameModel<C> {
        FrameModel {
            at: TaskModel {
                chain: self.ignores.chain(),
                adapts: self.ignores.adapts(),
                anchor: self.ignores.anchor(),
                ..self.task.model()
            },
            listed: self.listing.listed(),
            deferred: self.listing.deferred(),
            next_entry: self.next_entry as int,
        }
    }

    /// The task of a directory found in this one.
    pub fn child(&self, path: Vec<u8>, open: DirectoryOpen<C>) -> (result: DirectoryTask<C>)
        requires
            self.task.depth < usize::MAX,
        ensures
            result.model() == child_of(self.model().at, path@, open),
    {
        let result = DirectoryTask {
            path,
            open,
            root: self.task.root,
            ancestors: self.task.ancestors.clone(),
            depth: self.task.depth + 1,
            ignores: self.ignores.clone(),
            ignore_errors: Vec::new(),
        };
        assert(result.model().errors =~= Seq::empty());
        result
    }

    /// Whether the caller's handle is read before the frame's next entry: it is
    /// before the first one and then every so many entries.
    pub fn polls(&self) -> (result: bool)
        ensures
            result == (self.model().next_entry % CANCELLATION_STRIDE as int == 0),
    {
        self.next_entry % CANCELLATION_STRIDE == 0
    }

    /// Sets the frame aside. Where the directory's identity is known, the
    /// driver lets go of the directory; where it is not, it keeps it rather
    /// than reopen something it could not verify.
    pub fn suspend(self, identity: Option<(u64, u64)>) -> (result: Self)
        ensures
            result.model() == set_aside(self.model(), identity),
    {
        let mut frame = self;
        if let Some((device, inode)) = identity {
            frame.task.open = DirectoryOpen::Suspended(device, inode);
        }
        frame
    }

    /// The identity to verify before the frame goes on.
    pub fn suspended_identity(&self) -> (result: Option<(u64, u64)>)
        ensures
            result == match self.model().at.open {
                DirectoryOpen::Suspended(device, inode) => Some((device, inode)),
                _ => None,
            },
    {
        match &self.task.open {
            DirectoryOpen::Suspended(device, inode) => Some((*device, *inode)),
            _ => None,
        }
    }

    /// Takes the frame up again. `restored` says whether its path still leads
    /// to the directory that was set aside: if not, the entries that are left
    /// name nothing there, and the frame ends.
    pub fn resume(self, restored: bool) -> (result: Option<Self>)
        ensures
            match result {
                Some(frame) => (restored || self.model().next_entry >= self.model().listed.len())
                    && frame.model() == taken_up(self.model()),
                None => !restored && self.model().next_entry < self.model().listed.len(),
            },
    {
        let entries = self.listing.entries();
        assert(entries@.len() == self.listing.listed().len());
        if self.next_entry < entries.len() && !restored {
            return None;
        }
        let mut frame = self;
        frame.task.open = DirectoryOpen::ByPath;
        Some(frame)
    }
}

/// Work the serial walk has yet to carry out, last in, first out.
#[derive(Debug)]
pub enum SerialTask<C> {
    Directory(DirectoryTask<C>),
    Resume(DirectoryFrame<C>),
    Emit(WalkEntry),
}

/// What a task of the serial walk is.
pub ghost enum Job<C> {
    Directory(TaskModel<C>),
    Resume(FrameModel<C>),
    Emit(Entry),
}

impl<C> SerialTask<C> {
    /// What the task is.
    pub open spec fn model(&self) -> Job<C> {
        match self {
            SerialTask::Directory(task) => Job::Directory(task.model()),
            SerialTask::Resume(frame) => Job::Resume(frame.model()),
            SerialTask::Emit(entry) => Job::Emit(entry@),
        }
    }
}

/// What comes after a directory's turn has come.
#[derive(Debug)]
pub enum Start<C> {
    /// Nothing: the walk was cancelled.
    Cancelled,
    /// Identify the directory.
    Identify(DirectoryTask<C>),
    /// Read the directory.
    Read(DirectoryTask<C>),
}

/// What comes next inside a directory.
#[derive(Debug, Clone, Copy, PartialEq, Eq, Structural)]
pub enum FrameStep {
    /// Classify the entry of this number.
    Classify(usize),
    /// Report the failures that waited for the entries.
    Drained,
    /// Nothing: the walk was cancelled.
    Cancelled,
}

/// What comes after an entry was acted on.
#[derive(Debug)]
pub enum Acted<C> {
    /// The directory goes on.
    Continue(DirectoryFrame<C>),
    /// The visitor is asked about the entry, and the directory goes on.
    Visit(DirectoryFrame<C>, WalkEntry),
    /// The directory waits, and a child of it is next.
    Left,
}

/// What comes after an entry was acted on.
pub ghost enum Afterwards<C> {
    Continue(FrameModel<C>),
    Visit(FrameModel<C>, Entry),
    Left,
}

impl<C> Acted<C> {
    /// What comes next.
    pub open spec fn model(&self) -> Afterwards<C> {
        match self {
            Acted::Continue(frame) => Afterwards::Continue(frame.model()),
            Acted::Visit(frame, entry) => Afterwards::Visit(frame.model(), entry@),
            Acted::Left => Afterwards::Left,
        }
    }
}

/// What the question of a failed answer is reported as.
pub open spec fn question_operation(question: Question) -> Seq<char> {
    match question {
        Question::Target => METADATA_OPERATION@,
        Question::Own => SYMLINK_METADATA_OPERATION@,
    }
}

/// An emitted entry in its place.
pub open spec fn emitted_at(emitted: EmittedEntry, path: Seq<u8>, root: Seq<u8>) -> Entry {
    Entry {
        path,
        root,
        is_dir: emitted.is_dir,
        is_symlink: emitted.is_symlink,
        depth: emitted.depth as int,
        metadata: emitted.metadata,
    }
}

/// What a serial walk holds.
pub ghost struct StateModel<C> {
    /// The entries kept so far.
    pub found: Seq<Entry>,
    /// The failures kept so far.
    pub faults: Seq<Fault>,
    /// The work left, the next task last.
    pub pending: Seq<Job<C>>,
    /// Whether the walk was cut short.
    pub cut_short: bool,
}

/// The walk after a verdict on an entry.
pub open spec fn after_verdict<C>(
    state: StateModel<C>,
    entry: Entry,
    verdict: Verdict,
) -> StateModel<C> {
    match verdict {
        Verdict::Keep => StateModel { found: state.found.push(entry), ..state },
        Verdict::Skip => state,
        Verdict::Stop => StateModel { cut_short: true, ..state },
    }
}

/// The walk after a failure, or the failure it ends with.
pub open spec fn after_fault<C>(
    state: StateModel<C>,
    policy: ErrorPolicy,
    failed: Fault,
    is_root: bool,
) -> Result<StateModel<C>, Fault> {
    match reaction(policy, is_root) {
        Reaction::Abort => Err(failed),
        Reaction::Drop => Ok(state),
        Reaction::Keep => Ok(StateModel { faults: state.faults.push(failed), ..state }),
    }
}

/// The walk after failures that no root depends on, in order.
pub open spec fn after_faults<C>(
    state: StateModel<C>,
    policy: ErrorPolicy,
    failed: Seq<Fault>,
) -> Result<StateModel<C>, Fault> {
    match policy {
        ErrorPolicy::Abort => if failed.len() > 0 {
            Err(failed[0])
        } else {
            Ok(state)
        },
        ErrorPolicy::Skip => Ok(state),
        ErrorPolicy::Collect => Ok(StateModel { faults: state.faults + failed, ..state }),
    }
}

/// The directory once its own ignore rules are in force.
pub open spec fn with_own_rules<C>(
    walker: WalkerModel,
    task: TaskModel<C>,
    directory: Seq<u8>,
    reads: Seq<IgnoreRead>,
) -> TaskModel<C> {
    TaskModel {
        open: DirectoryOpen::ByPath,
        chain: if walker.respect_git_ignore {
            linked(task.chain, set_read(anchored(task.anchor, directory), reads, task.adapts))
        } else {
            task.chain
        },
        ..task
    }
}

/// What reading a directory's own ignore files is reported as.
pub open spec fn own_faults(walker: WalkerModel, reads: Seq<IgnoreRead>) -> Seq<Fault> {
    if walker.respect_git_ignore {
        ignore_reports(all_faults_read(reads, Place::Tree(walker.syntax)))
    } else {
        Seq::empty()
    }
}

/// The walk once a directory was read, or the failure it ends with.
pub open spec fn after_opening<C>(
    state: StateModel<C>,
    walker: WalkerModel,
    frame: FrameModel<C>,
    failed: Seq<Fault>,
) -> Result<StateModel<C>, Fault> {
    match after_faults(state, walker.error_policy, failed) {
        Ok(next) => Ok(StateModel { pending: next.pending.push(Job::Resume(frame)), ..next }),
        Err(first) => Err(first),
    }
}

/// The walk once a directory waits for a child of it: the child is next, then
/// what is recorded of it, and then the directory goes on.
pub open spec fn after_descent<C>(
    state: StateModel<C>,
    frame: FrameModel<C>,
    entry: Option<Entry>,
    child: TaskModel<C>,
) -> StateModel<C> {
    let waiting = state.pending.push(Job::Resume(frame));
    let recorded = match entry {
        Some(entry) => waiting.push(Job::Emit(entry)),
        None => waiting,
    };
    StateModel { pending: recorded.push(Job::Directory(child)), ..state }
}

/// The walk after an entry was acted on, and what comes next, or the failure it
/// ends with.
pub open spec fn after_action<C>(
    state: StateModel<C>,
    walker: WalkerModel,
    frame: FrameModel<C>,
    path: Seq<u8>,
    action: EntryAction,
    failure: Option<Failure>,
    open: DirectoryOpen<C>,
    identity: Option<(u64, u64)>,
) -> Result<(StateModel<C>, Afterwards<C>), Fault> {
    let root = walker.roots[frame.at.root].path;
    let child = child_of(frame.at, path, open);
    let aside = set_aside(frame, identity);
    match action {
        EntryAction::Ask(_) | EntryAction::Skip => Ok((state, Afterwards::Continue(frame))),
        EntryAction::Emit(emitted) => Ok(
            (state, Afterwards::Visit(frame, emitted_at(emitted, path, root))),
        ),
        EntryAction::Descend => Ok((after_descent(state, aside, None, child), Afterwards::Left)),
        EntryAction::DescendAndEmit(emitted) => Ok(
            (
                after_descent(state, aside, Some(emitted_at(emitted, path, root)), child),
                Afterwards::Left,
            ),
        ),
        EntryAction::Failed { question, descend } => {
            let failed = fault(question_operation(question), path, failure->0);
            match after_fault(state, walker.error_policy, failed, false) {
                Err(failed) => Err(failed),
                Ok(next) => if descend {
                    Ok((after_descent(next, aside, None, child), Afterwards::Left))
                } else {
                    Ok((next, Afterwards::Continue(frame)))
                },
            }
        },
    }
}

/// The state of a serial walk.
#[derive(Debug)]
pub struct WalkState<C> {
    entries: Vec<WalkEntry>,
    errors: Vec<WalkError>,
    pending: Vec<SerialTask<C>>,
    cancelled: bool,
}

/// What tasks are.
pub open spec fn jobs<C>(tasks: Seq<SerialTask<C>>) -> Seq<Job<C>> {
    Seq::new(tasks.len(), |i: int| tasks[i].model())
}

/// Whether an outcome is that of a walk that becomes `expected` or ends with a
/// failure and stays as it was.
pub open spec fn comes_to<C, T>(
    result: Result<T, WalkError>,
    before: StateModel<C>,
    after: StateModel<C>,
    expected: Result<StateModel<C>, Fault>,
) -> bool {
    match expected {
        Ok(next) => result is Ok && after == next,
        Err(failed) => result is Err && result->Err_0@ == failed && after == before,
    }
}

impl<C> WalkState<C> {
    /// What the walk holds.
    pub closed spec fn model(&self) -> StateModel<C> {
        StateModel {
            found: entries_of(self.entries@),
            faults: faults_of(self.errors@),
            pending: jobs(self.pending@),
            cut_short: self.cancelled,
        }
    }

    /// Starts with the roots' tasks, the first root first.
    pub fn new(roots: Vec<DirectoryTask<C>>) -> (result: Self)
        ensures
            result.model() == fresh_state(root_jobs(task_models(roots@))),
    {
        let ghost all = root_jobs(task_models(roots@));
        let mut rest = roots;
        let mut pending: Vec<SerialTask<C>> = Vec::new();
        assert(jobs(pending@) =~= all.take(0));
        while rest.len() > 0
            invariant
                all == root_jobs(task_models(roots@)),
                rest@.len() <= all.len() == roots@.len(),
                forall|i: int| 0 <= i < rest@.len() ==> rest@[i] == roots@[i],
                jobs(pending@) == all.take(all.len() - rest@.len()),
            decreases rest@.len(),
        {
            let ghost done = jobs(pending@);
            let ghost at = all.len() - rest@.len();
            if let Some(task) = rest.pop() {
                pending.push(SerialTask::Directory(task));
                assert(all[at] == Job::Directory(task.model()));
                assert(jobs(pending@) =~= done.push(all[at]));
                assert(all.take(at + 1) =~= done.push(all[at]));
            }
        }
        assert(all.take(all.len() as int) =~= all);
        let result = WalkState {
            entries: Vec::new(),
            errors: Vec::new(),
            pending,
            cancelled: false,
        };
        assert(result.model().found =~= Seq::<Entry>::empty());
        assert(result.model().faults =~= Seq::<Fault>::empty());
        result
    }

    /// Takes the next task.
    pub fn next_task(&mut self) -> (result: Option<SerialTask<C>>)
        ensures
            match result {
                Some(task) => {
                    &&& old(self).model().pending.len() > 0
                    &&& task.model() == old(self).model().pending.last()
                    &&& final(self).model() == (StateModel {
                        pending: old(self).model().pending.drop_last(),
                        ..old(self).model()
                    })
                },
                None => old(self).model().pending.len() == 0 && final(self).model() == old(
                    self).model(),
            },
    {
        let ghost before = self.model().pending;
        let task = self.pending.pop();
        assert(task is Some ==> self.model().pending =~= before.drop_last());
        assert(task is None ==> self.model().pending =~= before);
        task
    }

    /// Notes a cancellation request. Once the walk is cut short it stays so.
    pub fn check_cancellation(&mut self, requested: bool) -> (result: bool)
        ensures
            result == (old(self).model().cut_short || requested),
            final(self).model() == (StateModel { cut_short: result, ..old(self).model() }),
    {
        self.cancelled = self.cancelled || requested;
        self.cancelled
    }

    /// Keeps an entry if the visitor said so, and ends the walk if it said so.
    pub fn emit_owned(&mut self, entry: WalkEntry, verdict: Verdict)
        ensures
            final(self).model() == after_verdict(old(self).model(), entry@, verdict),
    {
        let ghost before = self.model();
        match verdict {
            Verdict::Keep => {
                let ghost added = entry@;
                self.entries.push(entry);
                assert(self.model().found =~= before.found.push(added));
            },
            Verdict::Skip => {},
            Verdict::Stop => {
                self.cancelled = true;
            },
        }
    }

    /// Reports a failure as the policy has it: the walk ends with it, drops it,
    /// or keeps it and goes on.
    pub fn handle_error(
        &mut self,
        policy: ErrorPolicy,
        operation: &'static str,
        path: Vec<u8>,
        source: Failure,
        is_root: bool,
    ) -> (result: Result<(), WalkError>)
        ensures
            comes_to(
                result,
                old(self).model(),
                final(self).model(),
                after_fault(
                    old(self).model(),
                    policy,
                    fault(operation@, path@, source),
                    is_root,
                ),
            ),
    {
        let ghost before = self.model();
        let error = WalkError::new(operation, path, source);
        match react(policy, is_root) {
            Reaction::Abort => Err(error),
            Reaction::Drop => Ok(()),
            Reaction::Keep => {
                let ghost added = error@;
                self.errors.push(error);
                assert(self.model().faults =~= before.faults.push(added));
                Ok(())
            },
        }
    }

    /// Reports the failures of ignore files, in order. No root depends on one.
    pub fn report_ignore_errors(&mut self, policy: ErrorPolicy, errors: Vec<IgnoreReadError>) -> (
    result: Result<(), WalkError>)
        ensures
            comes_to(
                result,
                old(self).model(),
                final(self).model(),
                after_faults(
                    old(self).model(),
                    policy,
                    ignore_reports(ignore_faults(errors@)),
                ),
            ),
    {
        let ghost all = ignore_faults(errors@);
        let ghost before = self.model();
        let mut rest = errors;
        assert(all.skip(0) =~= all);
        assert(before.faults + ignore_reports(all.take(0)) =~= before.faults);
        while rest.len() > 0
            invariant
                all == ignore_faults(errors@),
                before == old(self).model(),
                rest@.len() <= all.len(),
                ignore_faults(rest@) == all.skip(all.len() - rest@.len()),
                self.model() == (StateModel { faults: self.model().faults, ..before }),
                policy == ErrorPolicy::Abort ==> rest@.len() == all.len() && self.model() == before,
                policy == ErrorPolicy::Skip ==> self.model() == before,
                policy == ErrorPolicy::Collect ==> self.model().faults == before.faults
                    + ignore_reports(all.take(all.len() - rest@.len())),
            decreases rest@.len(),
        {
            let ghost at = all.len() - rest@.len();
            let ghost left = ignore_faults(rest@);
            let ghost faults = self.model().faults;
            let error = rest.remove(0);
            proof {
                assert(error@ == left[0]);
                assert(error@ == all[at]);
                assert(ignore_faults(rest@) =~= left.skip(1));
                assert(left.skip(1) =~= all.skip(at + 1));
            }
            let (path, source) = error.into_parts();
            match self.handle_error(policy, IGNORE_FILE_OPERATION, path, source, false) {
                Ok(()) => {},
                Err(error) => {
                    assert(ignore_reports(all)[0] == error@);
                    return Err(error);
                },
            }
            proof {
                if policy == ErrorPolicy::Collect {
                    let report = ignore_report(all[at]);
                    assert(ignore_reports(all.take(at + 1)) =~= ignore_reports(all.take(at)).push(
                        report,
                    ));
                    assert(before.faults + ignore_reports(all.take(at)).push(report)
                        =~= faults.push(report));
                }
            }
        }
        assert(all.take(all.len() as int) =~= all);
        Ok(())
    }

    /// Takes up a directory whose turn has come. Failures that were found
    /// before are reported first.
    pub fn start_directory(
        &mut self,
        walker: &Walker,
        task: DirectoryTask<C>,
        requested: bool,
    ) -> (result: Result<Start<C>, WalkError>)
        ensures
            ({
                let noted = StateModel {
                    cut_short: old(self).model().cut_short || requested,
                    ..old(self).model()
                };
                if noted.cut_short {
                    &&& result == Ok::<Start<C>, WalkError>(Start::Cancelled)
                    &&& final(self).model() == noted
                } else {
                    &&& comes_to(
                        result,
                        noted,
                        final(self).model(),
                        after_faults(
                            noted,
                            walker.model().error_policy,
                            ignore_reports(task.model().errors),
                        ),
                    )
                    &&& result is Ok ==> match result->Ok_0 {
                        Start::Cancelled => false,
                        Start::Identify(next) => walker.model().options.follow_symlinks
                            && next.model() == reported(task.model()),
                        Start::Read(next) => !walker.model().options.follow_symlinks
                            && next.model() == reported(task.model()),
                    }
                }
            }),
    {
        if self.check_cancellation(requested) {
            return Ok(Start::Cancelled);
        }
        let mut next = task;
        let mut errors: Vec<IgnoreReadError> = Vec::new();
        std::mem::swap(&mut errors, &mut next.ignore_errors);
        assert(next.model().errors =~= Seq::empty());
        match self.report_ignore_errors(walker.policy(), errors) {
            Ok(()) => {},
            Err(error) => return Err(error),
        }
        if walker.walk_options().follow_symlinks {
            Ok(Start::Identify(next))
        } else {
            Ok(Start::Read(next))
        }
    }

    /// Enters a directory that was identified, unless it is its own ancestor.
    /// One that cannot be identified is reported and not entered.
    pub fn enter_directory(
        &mut self,
        walker: &Walker,
        task: DirectoryTask<C>,
        key: Result<CycleKey, Failure>,
    ) -> (result: Result<Option<DirectoryTask<C>>, WalkError>)
        ensures
            match key {
                Ok(key) => {
                    &&& final(self).model() == old(self).model()
                    &&& result is Ok
                    &&& match result->Ok_0 {
                        Some(next) => Some(next.model()) == entered(task.model(), key@),
                        None => entered(task.model(), key@) is None,
                    }
                },
                Err(source) => {
                    &&& comes_to(
                        result,
                        old(self).model(),
                        final(self).model(),
                        after_fault(
                            old(self).model(),
                            walker.model().error_policy,
                            fault(
                                cycle_key_operation(walker.model().syntax),
                                task.model().path,
                                source,
                            ),
                            task.model().depth == 0,
                        ),
                    )
                    &&& result is Ok ==> result->Ok_0 is None
                },
            },
    {
        match key {
            Ok(key) => match task.ancestors.enter(key) {
                Some(ancestors) => Ok(Some(DirectoryTask { ancestors, ..task })),
                None => Ok(None),
            },
            Err(source) => {
                let operation = match walker.syntax() {
                    Syntax::Posix => METADATA_OPERATION,
                    Syntax::Windows => CANONICALIZE_OPERATION,
                };
                let is_root = task.depth == 0;
                match self.handle_error(walker.policy(), operation, task.path, source, is_root) {
                    Ok(()) => Ok(None),
                    Err(error) => Err(error),
                }
            },
        }
    }

    /// Reports a directory that could not be read.
    pub fn fail_directory(&mut self, walker: &Walker, task: DirectoryTask<C>, source: Failure) -> (
    result: Result<(), WalkError>)
        ensures
            comes_to(
                result,
                old(self).model(),
                final(self).model(),
                after_fault(
                    old(self).model(),
                    walker.model().error_policy,
                    fault(READ_DIR_OPERATION@, task.model().path, source),
                    task.model().depth == 0,
                ),
            ),
    {
        let is_root = task.depth == 0;
        self.handle_error(walker.policy(), READ_DIR_OPERATION, task.path, source, is_root)
    }

    /// Begins with the entries of a directory that was read. Its own ignore
    /// files join the chain here, once. Their failures are reported first.
    pub fn open_directory(
        &mut self,
        walker: &Walker,
        task: DirectoryTask<C>,
        listing: Listing,
        own: DirectoryReads,
    ) -> (result: Result<(), WalkError>)
        ensures
            comes_to(
                result,
                old(self).model(),
                final(self).model(),
                after_opening(
                    old(self).model(),
                    walker.model(),
                    FrameModel {
                        at: with_own_rules(
                            walker.model(),
                            task.model(),
                            own.directory@,
                            own.reads@,
                        ),
                        listed: listing.listed(),
                        deferred: listing.deferred(),
                        next_entry: 0,
                    },
                    own_faults(walker.model(), own.reads@),
                ),
            ),
    {
        let DirectoryTask { path, open: _, root, ancestors, depth, ignores, ignore_errors } = task;
        let (entered, errors) = ignores.enter(walker.respects_git_ignore(), own, walker.syntax());
        assert(ignore_reports(ignore_faults(errors@)) =~= own_faults(walker.model(), own.reads@));
        match self.report_ignore_errors(walker.policy(), errors) {
            Ok(()) => {},
            Err(error) => return Err(error),
        }
        let ghost before = self.model().pending;
        let frame = DirectoryFrame {
            task: DirectoryTask {
                path,
                open: DirectoryOpen::ByPath,
                root,
                ancestors,
                depth,
                ignores: IgnoreScope::default(),
                ignore_errors,
            },
            ignores: entered,
            listing,
            next_entry: 0,
        };
        let ghost added = Job::Resume(frame.model());
        self.pending.push(SerialTask::Resume(frame));
        assert(self.model().pending =~= before.push(added));
        Ok(())
    }

    /// What comes next inside a directory. A visitor's stop counts at once; the
    /// caller's handle, which `requested` is read from, every so many entries.
    pub fn step_frame(&mut self, frame: &mut DirectoryFrame<C>, requested: bool) -> (result:
        FrameStep)
        ensures
            ({
                let before = old(self).model();
                let at = old(frame).model().next_entry;
                let polls = at % CANCELLATION_STRIDE as int == 0;
                if at >= old(frame).model().listed.len() {
                    &&& result == FrameStep::Drained
                    &&& final(frame).model() == old(frame).model()
                    &&& final(self).model() == before
                } else if before.cut_short || (polls && requested) {
                    &&& result == FrameStep::Cancelled
                    &&& final(frame).model() == old(frame).model()
                    &&& final(self).model() == (StateModel { cut_short: true, ..before })
                } else {
                    &&& result == FrameStep::Classify(at as usize)
                    &&& final(frame).model() == (FrameModel {
                        next_entry: at + 1,
                        ..old(frame).model()
                    })
                    &&& final(self).model() == before
                }
            }),
            final(frame).listing == old(frame).listing,
            final(frame).task == old(frame).task,
            final(frame).ignores == old(frame).ignores,
    {
        let at: usize = frame.next_entry;
        let len: usize = frame.listing.entries().len();
        assert(len == frame.listing.listed().len());
        if at >= len {
            return FrameStep::Drained;
        }
        if self.cancelled || (frame.polls() && self.check_cancellation(requested)) {
            return FrameStep::Cancelled;
        }
        frame.next_entry = at + 1;
        FrameStep::Classify(at)
    }

    /// Sets a directory aside and schedules a child of it. The child's subtree
    /// is walked first, then the child is recorded, if it is to be, and then
    /// the directory goes on.
    pub fn descend(
        &mut self,
        frame: DirectoryFrame<C>,
        entry: Option<WalkEntry>,
        child: DirectoryTask<C>,
    )
        ensures
            final(self).model() == after_descent(
                old(self).model(),
                frame.model(),
                match entry {
                    Some(entry) => Some(entry@),
                    None => None,
                },
                child.model(),
            ),
    {
        let ghost before = self.model().pending;
        let ghost first = Job::Resume(frame.model());
        let ghost last = Job::Directory(child.model());
        self.pending.push(SerialTask::Resume(frame));
        match entry {
            Some(entry) => {
                let ghost second = Job::Emit(entry@);
                self.pending.push(SerialTask::Emit(entry));
                self.pending.push(SerialTask::Directory(child));
                assert(self.model().pending =~= before.push(first).push(second).push(last));
            },
            None => {
                self.pending.push(SerialTask::Directory(child));
                assert(self.model().pending =~= before.push(first).push(last));
            },
        }
    }

    /// Acts on a classified entry of a directory.
    ///
    /// `failure` is the failed answer of an action that failed, `open` how a
    /// child would be opened, and `identity` what the directory is known by
    /// while it waits for the child.
    pub fn act(
        &mut self,
        walker: &Walker,
        frame: DirectoryFrame<C>,
        path: Vec<u8>,
        action: EntryAction,
        failure: Option<Failure>,
        open: DirectoryOpen<C>,
        identity: Option<(u64, u64)>,
    ) -> (result: Result<Acted<C>, WalkError>)
        requires
            frame.model().at.root < walker.model().roots.len(),
            frame.model().at.depth < usize::MAX,
            !(action is Ask),
            action is Failed ==> failure is Some,
        ensures
            match after_action(
                old(self).model(),
                walker.model(),
                frame.model(),
                path@,
                action,
                failure,
                open,
                identity,
            ) {
                Ok((next, afterwards)) => {
                    &&& final(self).model() == next
                    &&& result is Ok
                    &&& result->Ok_0.model() == afterwards
                },
                Err(failed) => {
                    &&& final(self).model() == old(self).model()
                    &&& result is Err
                    &&& result->Err_0@ == failed
                },
            },
    {
        match action {
            EntryAction::Ask(_) | EntryAction::Skip => Ok(Acted::Continue(frame)),
            EntryAction::Emit(emitted) => {
                let root = walker.plan(frame.task.root).shared_path();
                let entry = emitted.with_path(path, root);
                Ok(Acted::Visit(frame, entry))
            },
            EntryAction::Descend => {
                let child = frame.child(path, open);
                self.descend(frame.suspend(identity), None, child);
                Ok(Acted::Left)
            },
            EntryAction::DescendAndEmit(emitted) => {
                let root = walker.plan(frame.task.root).shared_path();
                let copy = slice_to_vec(path.as_slice());
                let entry = emitted.with_path(copy, root);
                let child = frame.child(path, open);
                self.descend(frame.suspend(identity), Some(entry), child);
                Ok(Acted::Left)
            },
            EntryAction::Failed { question, descend } => {
                let operation = match question {
                    Question::Target => METADATA_OPERATION,
                    Question::Own => SYMLINK_METADATA_OPERATION,
                };
                if let Some(failure) = failure {
                    let copy = slice_to_vec(path.as_slice());
                    match self.handle_error(walker.policy(), operation, copy, failure, false) {
                        Ok(()) => {},
                        Err(error) => return Err(error),
                    }
                }
                if descend {
                    let child = frame.child(path, open);
                    self.descend(frame.suspend(identity), None, child);
                    Ok(Acted::Left)
                } else {
                    Ok(Acted::Continue(frame))
                }
            },
        }
    }

    /// Reports the failures that waited for a directory's entries, in order.
    pub fn drain_directory(&mut self, walker: &Walker, frame: DirectoryFrame<C>) -> (result: Result<
        (),
        WalkError,
    >)
        ensures
            comes_to(
                result,
                old(self).model(),
                final(self).model(),
                after_faults(
                    old(self).model(),
                    walker.model().error_policy,
                    deferred_reports(frame.model().deferred),
                ),
            ),
    {
        let policy = walker.policy();
        let mut listing = frame.listing;
        let ghost all = listing.deferred();
        let ghost before = self.model();
        assert(all.skip(0) =~= all);
        assert(before.faults + deferred_reports(all.take(0)) =~= before.faults);
        let mut waiting = listing.take_deferred_error();
        let ghost mut at: int = 0;
        while waiting.is_some()
            invariant
                0 <= at <= all.len(),
                all == frame.listing.deferred(),
                before == old(self).model(),
                policy == walker.model().error_policy,
                self.model() == (StateModel { faults: self.model().faults, ..before }),
                match waiting {
                    Some(error) => at < all.len() && error@ == all[at] && listing.deferred()
                        == all.skip(at + 1),
                    None => at == all.len(),
                },
                policy == ErrorPolicy::Abort ==> at == 0 && self.model() == before,
                policy == ErrorPolicy::Skip ==> self.model() == before,
                policy == ErrorPolicy::Collect ==> self.model().faults == before.faults
                    + deferred_reports(all.take(at)),
            decreases all.len() - at,
        {
            let ghost faults = self.model().faults;
            if let Some(error) = waiting {
                match self.handle_error(policy, READ_DIR_OPERATION, error.path, error.source, false) {
                    Ok(()) => {},
                    Err(error) => {
                        assert(deferred_reports(all)[0] == error@);
                        return Err(error);
                    },
                }
            }
            proof {
                if policy == ErrorPolicy::Collect {
                    let report = deferred_report(all[at]);
                    assert(deferred_reports(all.take(at + 1)) =~= deferred_reports(
                        all.take(at),
                    ).push(report));
                    assert(before.faults + deferred_reports(all.take(at)).push(report)
                        =~= faults.push(report));
                }
                assert(all.skip(at + 1).len() == all.len() - at - 1);
                if at + 1 < all.len() {
                    assert(all.skip(at + 1).drop_first() =~= all.skip(at + 2));
                    assert(all.skip(at + 1)[0] == all[at + 1]);
                }
                at = at + 1;
            }
            waiting = listing.take_deferred_error();
        }
        assert(all.take(all.len() as int) =~= all);
        Ok(())
    }

    /// The result of a walk that nobody aborted. It is sorted where the options
    /// ask for it.
    pub fn finish(self, walker: &Walker) -> (result: WalkResult)
        ensures
            result.faults() == self.model().faults,
            result.cut_short() == self.model().cut_short,
            walker.model().options.sort ==> is_sorting_of(
                result.found(),
                self.model().found,
                walker.model().syntax,
            ),
            !walker.model().options.sort ==> result.found() == self.model().found,
    {
        let WalkState { entries, errors, pending: _, cancelled } = self;
        let entries = if walker.walk_options().sort {
            sort_entries(entries, walker.syntax())
        } else {
            entries
        };
        WalkResult::new(entries, errors, cancelled)
    }
}

/// What tasks say of their directories.
pub open spec fn task_models<C>(tasks: Seq<DirectoryTask<C>>) -> Seq<TaskModel<C>> {
    Seq::new(tasks.len(), |i: int| tasks[i].model())
}

/// The jobs of the roots: the first root's is next, and next is last.
pub open spec fn root_jobs<C>(roots: Seq<TaskModel<C>>) -> Seq<Job<C>> {
    Seq::new(roots.len(), |i: int| Job::Directory(roots[roots.len() - 1 - i]))
}

/// A walk that found nothing yet.
pub open spec fn fresh_state<C>(pending: Seq<Job<C>>) -> StateModel<C> {
    StateModel { found: Seq::empty(), faults: Seq::empty(), pending, cut_short: false }
}

/// A directory with its failures taken off.
pub open spec fn reported<C>(task: TaskModel<C>) -> TaskModel<C> {
    TaskModel { errors: Seq::empty(), ..task }
}

/// A directory that was identified, unless it is its own ancestor.
pub open spec fn entered<C>(task: TaskModel<C>, key: Key) -> Option<TaskModel<C>> {
    if task.ancestors.contains(key) {
        None
    } else {
        Some(TaskModel { ancestors: seq![key] + task.ancestors, ..task })
    }
}

} // verus!
