//! The incremental walk: entries and errors one at a time.
//!
//! The stream keeps the directory it is delivering and the directories that
//! wait. As in the serial walk, nothing here touches the filesystem.
use vstd::prelude::*;
use vstd::slice::slice_to_vec;

use crate::classify::{EntryAction, Question};
use crate::failure::Failure;
use crate::gitignore::{
    ignore_faults, DirectoryReads, IgnoreFault, IgnoreReadError, IgnoreScope,
};
use crate::listing::{Deferred, Listed, Listing};
use crate::literal::Syntax;
use crate::options::{fault, faults_of, Entry, ErrorPolicy, Fault, WalkEntry, WalkError};
use crate::walk::{
    child_of, cycle_key_operation, deferred_report, emitted_at, entered, ignore_reports,
    own_faults, question_operation, react, reaction, task_models, with_own_rules, AncestorChain,
    CycleKey, DirectoryOpen, DirectoryTask, FrameModel, Reaction, TaskModel, CANONICALIZE_OPERATION,
    IGNORE_FILE_OPERATION, METADATA_OPERATION, READ_DIR_OPERATION, SYMLINK_METADATA_OPERATION,
};
use crate::walker::{Walker, WalkerModel};

verus! {

/// What the stream does next.
#[derive(Debug)]
pub enum Turn<C> {
    /// Nothing more comes.
    End,
    /// This failure is next.
    Yield(WalkError),
    /// Classify the entry of this number of the directory being delivered.
    Classify(usize),
    /// Prepare this directory.
    Prepare(DirectoryTask<C>),
    /// Nothing came of this turn; take another.
    Again,
}

/// What a turn of a stream is.
pub ghost enum TurnModel<C> {
    End,
    Yield(Fault),
    Classify(int),
    Prepare(TaskModel<C>),
    Again,
}

impl<C> Turn<C> {
    /// What the turn is.
    pub open spec fn model(&self) -> TurnModel<C> {
        match self {
            Turn::End => TurnModel::End,
            Turn::Yield(error) => TurnModel::Yield(error@),
            Turn::Classify(index) => TurnModel::Classify(*index as int),
            Turn::Prepare(task) => TurnModel::Prepare(task.model()),
            Turn::Again => TurnModel::Again,
        }
    }
}

/// What came of identifying a directory.
#[derive(Debug)]
pub enum Identified<C> {
    /// Read this directory.
    Entered(DirectoryTask<C>),
    /// The directory is its own ancestor. What is to be said is of before.
    Cycle(Option<WalkError>),
    /// The directory could not be identified, and this is to be said of it.
    Failed(Option<WalkError>),
}

/// An incremental walk.
#[derive(Debug)]
pub struct WalkStream<C> {
    pending_directories: Vec<DirectoryTask<C>>,
    /// The directory being delivered, and how far the stream is through it.
    listing: Listing,
    next_entry: usize,
    directory: Vec<u8>,
    ancestors: AncestorChain,
    ignores: IgnoreScope,
    depth: usize,
    root: usize,
    /// Failures of ignore files, the next one last.
    pending_errors: Vec<WalkError>,
    cancelled: bool,
    stopped: bool,
}

/// What a stream holds.
pub ghost struct StreamModel<C> {
    /// The directories that wait, the next one last.
    pub waiting: Seq<TaskModel<C>>,
    /// The directory being delivered.
    pub frame: FrameModel<C>,
    /// Failures that wait, the next one last.
    pub faults: Seq<Fault>,
    pub cancelled: bool,
    pub stopped: bool,
}

/// Whether a stream of these roots has said nothing yet.
pub open spec fn is_fresh_stream<C>(stream: StreamModel<C>, roots: Seq<TaskModel<C>>) -> bool {
    &&& stream.waiting == roots.reverse()
    &&& stream.frame.at.depth == 0
    &&& stream.frame.at.errors == Seq::<IgnoreFault>::empty()
    &&& stream.frame.listed == Seq::<Listed>::empty()
    &&& stream.frame.deferred == Seq::<Deferred>::empty()
    &&& stream.frame.next_entry == 0
    &&& stream.faults == Seq::<Fault>::empty()
    &&& !stream.cancelled
    &&& !stream.stopped
}

/// What an error policy makes of a failure: whether it is said, and the stream
/// afterwards.
pub open spec fn said_of<C>(stream: StreamModel<C>, policy: ErrorPolicy, is_root: bool) -> (
    bool,
    StreamModel<C>,
) {
    match reaction(policy, is_root) {
        Reaction::Abort => (true, StreamModel { stopped: true, ..stream }),
        Reaction::Drop => (false, stream),
        Reaction::Keep => (true, stream),
    }
}

/// What is said of one failure, and the stream afterwards.
pub open spec fn after_failure<C>(
    stream: StreamModel<C>,
    policy: ErrorPolicy,
    failed: Fault,
    is_root: bool,
) -> (Option<Fault>, StreamModel<C>) {
    let (says, after) = said_of(stream, policy, is_root);
    (
        if says {
            Some(failed)
        } else {
            None
        },
        after,
    )
}

/// What becomes of a stream when ignore files failed: the failures are queued
/// in order under a collecting policy, and the first is said at once.
pub open spec fn after_ignore_errors<C>(
    stream: StreamModel<C>,
    policy: ErrorPolicy,
    errors: Seq<Fault>,
) -> (Option<Fault>, StreamModel<C>) {
    match policy {
        ErrorPolicy::Skip => (None, stream),
        ErrorPolicy::Abort => if errors.len() == 0 {
            (None, stream)
        } else {
            (Some(errors[0]), StreamModel { stopped: true, ..stream })
        },
        ErrorPolicy::Collect => {
            let queue = stream.faults + errors.reverse();
            if queue.len() == 0 {
                (None, stream)
            } else {
                (Some(queue.last()), StreamModel { faults: queue.drop_last(), ..stream })
            }
        },
    }
}

/// What is said of a directory that cannot be delivered, and the stream
/// afterwards: failures of ignore files found before come first.
pub open spec fn after_giving_up<C>(
    stream: StreamModel<C>,
    policy: ErrorPolicy,
    errors: Seq<Fault>,
    failed: Fault,
    is_root: bool,
) -> (Option<Fault>, StreamModel<C>) {
    match policy {
        ErrorPolicy::Skip => after_failure(stream, policy, failed, is_root),
        _ => after_ignore_errors(stream, policy, errors.push(failed)),
    }
}

/// What the stream does next, and the stream afterwards: a cancellation request
/// ends it; then come failures that wait, entries, failures that waited for the
/// entries, and the next directory.
pub open spec fn turned<C>(stream: StreamModel<C>, policy: ErrorPolicy, requested: bool) -> (
    TurnModel<C>,
    StreamModel<C>,
) {
    let frame = stream.frame;
    if stream.stopped {
        (TurnModel::End, stream)
    } else if stream.cancelled || requested {
        (TurnModel::End, StreamModel { cancelled: true, stopped: true, ..stream })
    } else if stream.faults.len() > 0 {
        (
            TurnModel::Yield(stream.faults.last()),
            StreamModel { faults: stream.faults.drop_last(), ..stream },
        )
    } else if frame.next_entry < frame.listed.len() {
        (
            TurnModel::Classify(frame.next_entry),
            StreamModel {
                frame: FrameModel { next_entry: frame.next_entry + 1, ..frame },
                ..stream
            },
        )
    } else if frame.deferred.len() > 0 {
        let taken = StreamModel {
            frame: FrameModel { deferred: frame.deferred.drop_first(), ..frame },
            ..stream
        };
        match after_failure(taken, policy, deferred_report(frame.deferred[0]), false) {
            (Some(failed), after) => (TurnModel::Yield(failed), after),
            (None, after) => (TurnModel::Again, after),
        }
    } else if stream.waiting.len() > 0 {
        (
            TurnModel::Prepare(stream.waiting.last()),
            StreamModel { waiting: stream.waiting.drop_last(), ..stream },
        )
    } else {
        (TurnModel::End, stream)
    }
}

/// What is said once a directory was read, and the stream that delivers it.
pub open spec fn after_preparing<C>(
    stream: StreamModel<C>,
    walker: WalkerModel,
    task: TaskModel<C>,
    frame: FrameModel<C>,
    failed: Seq<Fault>,
) -> (Option<Fault>, StreamModel<C>) {
    after_ignore_errors(
        StreamModel {
            frame: FrameModel { at: TaskModel { errors: Seq::empty(), ..frame.at }, ..frame },
            ..stream
        },
        walker.error_policy,
        ignore_reports(task.errors) + failed,
    )
}

/// What is said of a directory that could not be read, and the stream
/// afterwards, which delivers nothing of it.
pub open spec fn after_failed_read<C>(
    stream: StreamModel<C>,
    walker: WalkerModel,
    task: TaskModel<C>,
    source: Failure,
) -> (Option<Fault>, StreamModel<C>) {
    after_giving_up(
        StreamModel {
            frame: FrameModel {
                listed: Seq::empty(),
                deferred: Seq::empty(),
                next_entry: 0,
                ..stream.frame
            },
            ..stream
        },
        walker.error_policy,
        ignore_reports(task.errors),
        fault(READ_DIR_OPERATION@, task.path, source),
        task.depth == 0,
    )
}

/// The stream with one more directory that waits.
pub open spec fn with_waiting<C>(stream: StreamModel<C>, task: TaskModel<C>) -> StreamModel<C> {
    StreamModel { waiting: stream.waiting.push(task), ..stream }
}

/// What is said of a classified entry, and the stream afterwards.
pub open spec fn after_entry<C>(
    stream: StreamModel<C>,
    walker: WalkerModel,
    path: Seq<u8>,
    action: EntryAction,
    failure: Option<Failure>,
    open: DirectoryOpen<C>,
) -> (Option<Result<Entry, Fault>>, StreamModel<C>) {
    let at = stream.frame.at;
    let root = walker.roots[at.root].path;
    let child = child_of(at, path, open);
    match action {
        EntryAction::Ask(_) | EntryAction::Skip => (None, stream),
        EntryAction::Emit(emitted) => (Some(Ok(emitted_at(emitted, path, root))), stream),
        EntryAction::Descend => (None, with_waiting(stream, child)),
        EntryAction::DescendAndEmit(emitted) => (
            Some(Ok(emitted_at(emitted, path, root))),
            with_waiting(stream, child),
        ),
        EntryAction::Failed { question, descend } => {
            let queued = if descend {
                with_waiting(stream, child)
            } else {
                stream
            };
            match after_failure(
                queued,
                walker.error_policy,
                fault(question_operation(question), path, failure->0),
                false,
            ) {
                (Some(failed), after) => (Some(Err(failed)), after),
                (None, after) => (None, after),
            }
        },
    }
}

/// What an error says, where there is one.
pub open spec fn fault_in(error: Option<WalkError>) -> Option<Fault> {
    match error {
        Some(error) => Some(error@),
        None => None,
    }
}

/// What an item says, where there is one.
pub open spec fn item_in(item: Option<Result<WalkEntry, WalkError>>) -> Option<
    Result<Entry, Fault>,
> {
    match item {
        Some(Ok(entry)) => Some(Ok(entry@)),
        Some(Err(error)) => Some(Err(error@)),
        None => None,
    }
}

impl<C> WalkStream<C> {
    /// What the stream holds.
    pub closed spec fn model(&self) -> StreamModel<C> {
        StreamModel {
            waiting: task_models(self.pending_directories@),
            frame: FrameModel {
                at: TaskModel {
                    path: self.directory@,
                    open: DirectoryOpen::ByPath,
                    root: self.root as int,
                    ancestors: self.ancestors.keys(),
                    depth: self.depth as int,
                    chain: self.ignores.chain(),
                    adapts: self.ignores.adapts(),
                    anchor: self.ignores.anchor(),
                    errors: Seq::empty(),
                },
                listed: self.listing.listed(),
                deferred: self.listing.deferred(),
                next_entry: self.next_entry as int,
            },
            faults: faults_of(self.pending_errors@),
            cancelled: self.cancelled,
            stopped: self.stopped,
        }
    }

    /// Starts with the roots' tasks, the first root first.
    pub fn new(roots: Vec<DirectoryTask<C>>) -> (result: Self)
        ensures
            is_fresh_stream(result.model(), task_models(roots@)),
    {
        let ghost all = task_models(roots@).reverse();
        let mut rest = roots;
        let mut waiting: Vec<DirectoryTask<C>> = Vec::new();
        assert(task_models(waiting@) =~= all.take(0));
        while rest.len() > 0
            invariant
                all == task_models(roots@).reverse(),
                rest@.len() <= all.len() == roots@.len(),
                forall|i: int| 0 <= i < rest@.len() ==> rest@[i] == roots@[i],
                task_models(waiting@) == all.take(all.len() - rest@.len()),
            decreases rest@.len(),
        {
            let ghost at = all.len() - rest@.len();
            let ghost done = task_models(waiting@);
            if let Some(task) = rest.pop() {
                waiting.push(task);
                assert(all[at] == task.model());
                assert(task_models(waiting@) =~= done.push(all[at]));
                assert(all.take(at + 1) =~= done.push(all[at]));
            }
        }
        assert(all.take(all.len() as int) =~= all);
        let result = WalkStream {
            pending_directories: waiting,
            listing: Listing::default(),
            next_entry: 0,
            directory: Vec::new(),
            ancestors: AncestorChain::default(),
            ignores: IgnoreScope::default(),
            depth: 0,
            root: 0,
            pending_errors: Vec::new(),
            cancelled: false,
            stopped: false,
        };
        assert(result.model().faults =~= Seq::<Fault>::empty());
        result
    }

    /// Whether a cancellation request ended this stream.
    #[must_use]
    pub fn was_cancelled(&self) -> (result: bool)
        ensures
            result == self.model().cancelled,
    {
        self.cancelled
    }

    /// The listing of the directory being delivered.
    pub fn listing(&self) -> (result: &Listing)
        ensures
            result.listed() == self.model().frame.listed,
            result.deferred() == self.model().frame.deferred,
    {
        &self.listing
    }

    /// The path of the directory being delivered.
    pub fn directory(&self) -> (result: &[u8])
        ensures
            result@ == self.model().frame.at.path,
    {
        self.directory.as_slice()
    }

    /// The ignore rules of the directory being delivered.
    pub fn ignores(&self) -> (result: &IgnoreScope)
        ensures
            result.chain() == self.model().frame.at.chain,
            result.adapts() == self.model().frame.at.adapts,
            result.anchor() == self.model().frame.at.anchor,
    {
        &self.ignores
    }

    /// How deep the directory being delivered sits, and under which root.
    pub fn place(&self) -> (result: (usize, usize))
        ensures
            result.0 == self.model().frame.at.depth,
            result.1 == self.model().frame.at.root,
    {
        (self.depth, self.root)
    }

    /// Notes a cancellation request. Once the stream is cancelled it stays so.
    pub fn check_cancellation(&mut self, requested: bool) -> (result: bool)
        ensures
            result == (old(self).model().cancelled || requested),
            final(self).model() == (StreamModel { cancelled: result, ..old(self).model() }),
    {
        self.cancelled = self.cancelled || requested;
        self.cancelled
    }

    /// What is said of a failure under the policy. An aborting policy stops the
    /// stream.
    pub fn error(
        &mut self,
        policy: ErrorPolicy,
        operation: &'static str,
        path: Vec<u8>,
        source: Failure,
        is_root: bool,
    ) -> (result: Option<WalkError>)
        ensures
            (fault_in(result), final(self).model()) == after_failure(
                old(self).model(),
                policy,
                fault(operation@, path@, source),
                is_root,
            ),
    {
        let error = WalkError::new(operation, path, source);
        match react(policy, is_root) {
            Reaction::Abort => {
                self.stopped = true;
                Some(error)
            },
            Reaction::Drop => None,
            Reaction::Keep => Some(error),
        }
    }

    /// Queues the failures of ignore files, and says the next one.
    pub fn queue_ignore_errors(&mut self, policy: ErrorPolicy, errors: Vec<IgnoreReadError>) -> (
    result: Option<WalkError>)
        ensures
            (fault_in(result), final(self).model()) == after_ignore_errors(
                old(self).model(),
                policy,
                ignore_reports(ignore_faults(errors@)),
            ),
    {
        let ghost all = ignore_faults(errors@);
        let ghost reports = ignore_reports(all);
        match policy {
            ErrorPolicy::Skip => None,
            ErrorPolicy::Abort => {
                let mut rest = errors;
                if rest.len() == 0 {
                    return None;
                }
                let first = rest.remove(0);
                assert(first@ == all[0]);
                self.stopped = true;
                let (path, source) = first.into_parts();
                Some(WalkError::new(IGNORE_FILE_OPERATION, path, source))
            },
            ErrorPolicy::Collect => {
                let ghost before = self.model();
                let mut rest = errors;
                assert(reports.reverse().take(0) =~= Seq::empty());
                assert(before.faults + reports.reverse().take(0) =~= before.faults);
                while rest.len() > 0
                    invariant
                        all == ignore_faults(errors@),
                        reports == ignore_reports(all),
                        rest@.len() <= all.len(),
                        ignore_faults(rest@) == all.take(rest@.len() as int),
                        self.model() == (StreamModel {
                            faults: before.faults + reports.reverse().take(
                                all.len() - rest@.len(),
                            ),
                            ..before
                        }),
                    decreases rest@.len(),
                {
                    let ghost n = rest@.len() as int;
                    let ghost left = ignore_faults(rest@);
                    let ghost queue = self.model().faults;
                    if let Some(error) = rest.pop() {
                        assert(error@ == left[n - 1]);
                        let (path, source) = error.into_parts();
                        let next = WalkError::new(IGNORE_FILE_OPERATION, path, source);
                        let ghost report = next@;
                        self.pending_errors.push(next);
                        proof {
                            assert(report == reports[n - 1]);
                            assert(reports.reverse()[all.len() - n] == report);
                            assert(ignore_faults(rest@) =~= all.take(n - 1));
                            assert(self.model().faults =~= queue.push(report));
                            assert(reports.reverse().take(all.len() - n + 1)
                                =~= reports.reverse().take(all.len() - n).push(report));
                            assert(before.faults + reports.reverse().take(all.len() - n).push(
                                report,
                            ) =~= queue.push(report));
                        }
                    }
                }
                assert(reports.reverse().take(all.len() as int) =~= reports.reverse());
                let ghost queue = self.model().faults;
                let next = self.pending_errors.pop();
                proof {
                    if next is Some {
                        assert(self.model().faults =~= queue.drop_last());
                    } else {
                        assert(queue.len() == 0);
                        assert(before.faults =~= Seq::<Fault>::empty());
                        assert(self.model().faults =~= before.faults);
                    }
                }
                next
            },
        }
    }

    /// Gives up on a directory: queues the failures of ignore files found before
    /// and this one behind them, and says the next.
    fn give_up(
        &mut self,
        policy: ErrorPolicy,
        errors: Vec<IgnoreReadError>,
        failed: WalkError,
        is_root: bool,
    ) -> (result: Option<WalkError>)
        ensures
            (fault_in(result), final(self).model()) == after_giving_up(
                old(self).model(),
                policy,
                ignore_reports(ignore_faults(errors@)),
                failed@,
                is_root,
            ),
    {
        let ghost reports = ignore_reports(ignore_faults(errors@));
        let ghost before = self.model();
        match policy {
            ErrorPolicy::Skip => match react(policy, is_root) {
                Reaction::Abort => {
                    self.stopped = true;
                    Some(failed)
                },
                Reaction::Drop => None,
                Reaction::Keep => Some(failed),
            },
            ErrorPolicy::Abort => if errors.len() == 0 {
                assert(reports.push(failed@)[0] == failed@);
                self.stopped = true;
                Some(failed)
            } else {
                assert(reports.push(failed@)[0] == reports[0]);
                self.queue_ignore_errors(policy, errors)
            },
            ErrorPolicy::Collect => {
                let ghost last = failed@;
                self.pending_errors.push(failed);
                assert(self.model().faults =~= before.faults.push(last));
                assert(before.faults.push(last) + reports.reverse() =~= before.faults
                    + reports.push(last).reverse());
                self.queue_ignore_errors(policy, errors)
            },
        }
    }

    /// Takes one turn.
    pub fn turn(&mut self, policy: ErrorPolicy, requested: bool) -> (result: Turn<C>)
        ensures
            (result.model(), final(self).model()) == turned(old(self).model(), policy, requested),
    {
        let ghost before = self.model();
        if self.stopped {
            return Turn::End;
        }
        if self.check_cancellation(requested) {
            self.stopped = true;
            return Turn::End;
        }
        if let Some(error) = self.pending_errors.pop() {
            assert(self.model().faults =~= before.faults.drop_last());
            return Turn::Yield(error);
        }
        assert(self.model().faults =~= before.faults);
        let len: usize = self.listing.entries().len();
        assert(len == self.listing.listed().len());
        if self.next_entry < len {
            let index: usize = self.next_entry;
            self.next_entry = index + 1;
            return Turn::Classify(index);
        }
        if let Some(error) = self.listing.take_deferred_error() {
            return match self.error(policy, READ_DIR_OPERATION, error.path, error.source, false) {
                Some(error) => Turn::Yield(error),
                None => Turn::Again,
            };
        }
        match self.pending_directories.pop() {
            Some(task) => {
                assert(self.model().waiting =~= before.waiting.drop_last());
                Turn::Prepare(task)
            },
            None => {
                assert(self.model().waiting =~= before.waiting);
                Turn::End
            },
        }
    }

    /// Enters a directory that was identified, unless it is its own ancestor.
    pub fn identify(
        &mut self,
        walker: &Walker,
        task: DirectoryTask<C>,
        key: Result<CycleKey, Failure>,
    ) -> (result: Identified<C>)
        ensures
            match key {
                Ok(key) => match entered(task.model(), key@) {
                    Some(next) => {
                        &&& final(self).model() == old(self).model()
                        &&& result is Entered
                        &&& result->Entered_0.model() == next
                    },
                    None => {
                        &&& result is Cycle
                        &&& (fault_in(result->Cycle_0), final(self).model())
                            == after_ignore_errors(
                            old(self).model(),
                            walker.model().error_policy,
                            ignore_reports(task.model().errors),
                        )
                    },
                },
                Err(source) => {
                    &&& result is Failed
                    &&& (fault_in(result->Failed_0), final(self).model()) == after_giving_up(
                        old(self).model(),
                        walker.model().error_policy,
                        ignore_reports(task.model().errors),
                        fault(
                            cycle_key_operation(walker.model().syntax),
                            task.model().path,
                            source,
                        ),
                        task.model().depth == 0,
                    )
                },
            },
    {
        match key {
            Ok(key) => match task.ancestors.enter(key) {
                Some(ancestors) => Identified::Entered(DirectoryTask { ancestors, ..task }),
                None => Identified::Cycle(
                    self.queue_ignore_errors(walker.policy(), task.ignore_errors),
                ),
            },
            Err(source) => {
                let operation = match walker.syntax() {
                    Syntax::Posix => METADATA_OPERATION,
                    Syntax::Windows => CANONICALIZE_OPERATION,
                };
                let is_root = task.depth == 0;
                let failed = WalkError::new(operation, task.path, source);
                Identified::Failed(
                    self.give_up(walker.policy(), task.ignore_errors, failed, is_root),
                )
            },
        }
    }

    /// Turns to a directory that was read. Its own ignore files join the chain
    /// here, and failures of those found so far are queued.
    pub fn prepare_directory(
        &mut self,
        walker: &Walker,
        task: DirectoryTask<C>,
        listing: Listing,
        own: DirectoryReads,
    ) -> (result: Option<WalkError>)
        ensures
            (fault_in(result), final(self).model()) == after_preparing(
                old(self).model(),
                walker.model(),
                task.model(),
                FrameModel {
                    at: with_own_rules(
                        walker.model(),
                        task.model(),
                        own.directory@,
                        own.reads@,
                    ),
                    listed: listing.listed(),
                    deferred: listing.deferred(),
                    next_entry: 0,
                },
                own_faults(walker.model(), own.reads@),
            ),
    {
        let DirectoryTask { path, open: _, root, ancestors, depth, ignores, ignore_errors } = task;
        let (entered, more) = ignores.enter(walker.respects_git_ignore(), own, walker.syntax());
        let ghost earlier = ignore_faults(ignore_errors@);
        let ghost later = ignore_faults(more@);
        assert(ignore_reports(later) =~= own_faults(walker.model(), own.reads@));
        let mut errors = ignore_errors;
        let mut tail = more;
        errors.append(&mut tail);
        assert(ignore_faults(errors@) =~= earlier + later);
        assert(ignore_reports(earlier + later) =~= ignore_reports(earlier) + ignore_reports(later));
        self.listing = listing;
        self.ignores = entered;
        self.depth = depth;
        self.root = root;
        self.ancestors = ancestors;
        self.next_entry = 0;
        self.directory = path;
        self.queue_ignore_errors(walker.policy(), errors)
    }

    /// Turns away from a directory that could not be read. What was listed of
    /// it before it failed belongs to it, and must not be taken for entries of
    /// the directory delivered before.
    pub fn fail_directory(&mut self, walker: &Walker, task: DirectoryTask<C>, source: Failure) -> (
    result: Option<WalkError>)
        ensures
            (fault_in(result), final(self).model()) == after_failed_read(
                old(self).model(),
                walker.model(),
                task.model(),
                source,
            ),
    {
        self.listing.clear();
        self.next_entry = 0;
        let is_root = task.depth == 0;
        let failed = WalkError::new(READ_DIR_OPERATION, task.path, source);
        self.give_up(walker.policy(), task.ignore_errors, failed, is_root)
    }

    /// The task of a directory found in the one being delivered.
    fn child(&self, path: Vec<u8>, open: DirectoryOpen<C>) -> (result: DirectoryTask<C>)
        requires
            self.model().frame.at.depth < usize::MAX,
        ensures
            result.model() == child_of(self.model().frame.at, path@, open),
    {
        let result = DirectoryTask {
            path,
            open,
            root: self.root,
            ancestors: self.ancestors.clone(),
            depth: self.depth + 1,
            ignores: self.ignores.clone(),
            ignore_errors: Vec::new(),
        };
        assert(result.model().errors =~= Seq::empty());
        result
    }

    /// Queues a directory that waits for its turn.
    fn wait(&mut self, task: DirectoryTask<C>)
        ensures
            final(self).model() == with_waiting(old(self).model(), task.model()),
    {
        let ghost before = self.model().waiting;
        let ghost added = task.model();
        self.pending_directories.push(task);
        assert(self.model().waiting =~= before.push(added));
    }

    /// Acts on a classified entry of the directory being delivered: a directory
    /// to traverse into waits for its turn, and what is to be said is said.
    pub fn process_entry(
        &mut self,
        walker: &Walker,
        path: Vec<u8>,
        action: EntryAction,
        failure: Option<Failure>,
        open: DirectoryOpen<C>,
    ) -> (result: Option<Result<WalkEntry, WalkError>>)
        requires
            old(self).model().frame.at.root < walker.model().roots.len(),
            old(self).model().frame.at.depth < usize::MAX,
            !(action is Ask),
            action is Failed ==> failure is Some,
        ensures
            (item_in(result), final(self).model()) == after_entry(
                old(self).model(),
                walker.model(),
                path@,
                action,
                failure,
                open,
            ),
    {
        match action {
            EntryAction::Ask(_) | EntryAction::Skip => None,
            EntryAction::Emit(emitted) => {
                let shared = walker.plan(self.root).shared_path();
                Some(Ok(emitted.with_path(path, shared)))
            },
            EntryAction::Descend => {
                let task = self.child(path, open);
                self.wait(task);
                None
            },
            EntryAction::DescendAndEmit(emitted) => {
                let shared = walker.plan(self.root).shared_path();
                let entry = emitted.with_path(slice_to_vec(path.as_slice()), shared);
                let task = self.child(path, open);
                self.wait(task);
                Some(Ok(entry))
            },
            EntryAction::Failed { question, descend } => {
                let operation = match question {
                    Question::Target => METADATA_OPERATION,
                    Question::Own => SYMLINK_METADATA_OPERATION,
                };
                let copy = slice_to_vec(path.as_slice());
                if descend {
                    let task = self.child(path, open);
                    self.wait(task);
                }
                match failure {
                    Some(failure) => match self.error(
                        walker.policy(),
                        operation,
                        copy,
                        failure,
                        false,
                    ) {
                        Some(error) => Some(Err(error)),
                        None => None,
                    },
                    None => None,
                }
            },
        }
    }
}

/// A stream that has stopped says nothing more, and stays as it is.
pub proof fn law_a_stopped_stream_says_nothing_more<C>(
    stream: StreamModel<C>,
    policy: ErrorPolicy,
    requested: bool,
)
    requires
        stream.stopped,
    ensures
        turned(stream, policy, requested) == (TurnModel::<C>::End, stream),
{
}

/// The stream says a failure exactly where the serial walk reports or keeps
/// it, and stops exactly where the serial walk aborts.
pub proof fn law_the_frontends_agree_on_failures<C>(
    stream: StreamModel<C>,
    policy: ErrorPolicy,
    is_root: bool,
)
    requires
        !stream.stopped,
    ensures
        said_of(stream, policy, is_root).0 == (reaction(policy, is_root) != Reaction::Drop),
        said_of(stream, policy, is_root).1.stopped == (reaction(policy, is_root)
            == Reaction::Abort),
{
}

} // verus!
