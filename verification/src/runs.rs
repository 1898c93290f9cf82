//! Whole walks, as steps through a filesystem that stays as it is.
//!
//! The serial walk and the stream say what each of their operations does to
//! them. Here those operations are put together the way a driver does it, so
//! that one can say what a walk comes to from its start to its end. Everything
//! in this module is about walks that nobody asks to stop.
use vstd::prelude::*;

use crate::classify::{
    classified, law_a_walk_of_one_root_reads_an_entry_alike, Candidate, EntryAction, Question,
};
use crate::failure::{Failure, FailureKind};
use crate::gitignore::IgnoreRead;
use crate::listing::{Deferred, Listed};
use crate::literal::Syntax;
use crate::options::{fault, Entry, Fault, Metadata, Verdict};
use crate::paths::pushed;
use crate::walk::{
    after_action, after_descent, after_fault, after_faults, after_opening, after_verdict, child_of,
    cycle_key_operation, deferred_reports, emitted_at, entered, fresh_state, ignore_reports,
    own_faults, question_operation, reported, root_jobs, set_aside, taken_up, with_own_rules, Afterwards,
    DirectoryOpen, FrameModel, Job, Key, StateModel, TaskModel, READ_DIR_OPERATION,
};
use crate::walker::WalkerModel;

verus! {

/// A filesystem that stays as it is, the driver that reads it, and the visitor.
pub ghost struct World<C> {
    /// How the host spells absolute paths.
    pub syntax: Syntax,
    /// What identifies the directory at a path.
    pub key: spec_fn(Seq<u8>) -> Result<Key, Failure>,
    /// What the directory at a path lists, and what failed on the way.
    pub listing: spec_fn(Seq<u8>) -> Result<(Seq<Listed>, Seq<Deferred>), Failure>,
    /// The attempts to read the ignore files of the directory at a path.
    pub reads: spec_fn(Seq<u8>) -> Seq<IgnoreRead>,
    /// What is at a path once links are followed.
    pub target: spec_fn(Seq<u8>) -> Result<Metadata, Failure>,
    /// What is at a path itself.
    pub own: spec_fn(Seq<u8>) -> Result<Metadata, Failure>,
    /// How the driver opens the directory at a path.
    pub open: spec_fn(Seq<u8>) -> DirectoryOpen<C>,
    /// What the driver knows the directory at a path by while it waits.
    pub identity: spec_fn(Seq<u8>) -> Option<(u64, u64)>,
    /// What the visitor says of an entry.
    pub verdict: spec_fn(Entry) -> Verdict,
}

/// What an answer says.
pub open spec fn answered(answer: Result<Metadata, Failure>) -> Option<
    Result<Metadata, FailureKind>,
> {
    match answer {
        Ok(metadata) => Some(Ok(metadata)),
        Err(failure) => Some(Err(failure.kind)),
    }
}

/// The path of an entry of a directory.
pub open spec fn entry_path<C>(world: World<C>, frame: FrameModel<C>, index: int) -> Seq<u8> {
    pushed(frame.at.path, frame.listed[index].name, world.syntax)
}

/// An entry of a directory in its place.
pub open spec fn candidate<C>(world: World<C>, frame: FrameModel<C>, index: int) -> Candidate {
    Candidate {
        root: frame.at.root,
        path: entry_path(world, frame, index),
        listed: frame.listed[index],
        chain: frame.at.chain,
        anchor: frame.at.anchor,
        depth: frame.at.depth + 1,
    }
}

/// What an entry of a directory means.
pub open spec fn action_at<C>(
    world: World<C>,
    walker: WalkerModel,
    frame: FrameModel<C>,
    index: int,
) -> EntryAction {
    let path = entry_path(world, frame, index);
    classified(
        walker,
        candidate(world, frame, index),
        answered((world.target)(path)),
        answered((world.own)(path)),
    )
}

/// The failed answer behind an action that failed.
pub open spec fn failure_behind<C>(
    world: World<C>,
    path: Seq<u8>,
    action: EntryAction,
) -> Option<Failure> {
    match action {
        EntryAction::Failed { question, .. } => {
            let answer = match question {
                Question::Target => (world.target)(path),
                Question::Own => (world.own)(path),
            };
            match answer {
                Err(failure) => Some(failure),
                Ok(_) => None,
            }
        },
        _ => None,
    }
}

/// The directory that an entry of a directory is.
pub open spec fn child_at<C>(world: World<C>, frame: FrameModel<C>, index: int) -> TaskModel<C> {
    let path = entry_path(world, frame, index);
    child_of(frame.at, path, (world.open)(path))
}

/// What comes of identifying and reading a directory.
pub ghost enum Read<C> {
    /// It is its own ancestor.
    Cycle,
    /// It could not be identified.
    Unidentified(Failure),
    /// It could not be read.
    Unreadable(Failure),
    /// It was read, and its ignore files failed like this.
    Opened(FrameModel<C>, Seq<Fault>),
}

/// What comes of listing a directory.
pub open spec fn listed_by<C>(
    world: World<C>,
    walker: WalkerModel,
    task: TaskModel<C>,
) -> Read<C> {
    let reads = (world.reads)(task.path);
    match (world.listing)(task.path) {
        Err(failure) => Read::Unreadable(failure),
        Ok((listed, deferred)) => Read::Opened(
            FrameModel {
                at: with_own_rules(walker, task, task.path, reads),
                listed,
                deferred,
                next_entry: 0,
            },
            own_faults(walker, reads),
        ),
    }
}

/// What comes of identifying, where links are followed, and reading a
/// directory.
pub open spec fn read_by<C>(world: World<C>, walker: WalkerModel, task: TaskModel<C>) -> Read<C> {
    if walker.options.follow_symlinks {
        match (world.key)(task.path) {
            Err(failure) => Read::Unidentified(failure),
            Ok(key) => match entered(task, key) {
                None => Read::Cycle,
                Some(next) => listed_by(world, walker, next),
            },
        }
    } else {
        listed_by(world, walker, task)
    }
}

/// What a directory that could not be identified is reported as.
pub open spec fn unidentified<C>(
    walker: WalkerModel,
    task: TaskModel<C>,
    failure: Failure,
) -> Fault {
    fault(cycle_key_operation(walker.syntax), task.path, failure)
}

/// What a directory that could not be read is reported as.
pub open spec fn unreadable<C>(task: TaskModel<C>, failure: Failure) -> Fault {
    fault(READ_DIR_OPERATION@, task.path, failure)
}

/// The serial walk once a directory's turn has come.
pub open spec fn directory_step<C>(
    world: World<C>,
    walker: WalkerModel,
    state: StateModel<C>,
    task: TaskModel<C>,
) -> Result<StateModel<C>, Fault> {
    let policy = walker.error_policy;
    let is_root = task.depth == 0;
    if state.cut_short {
        Ok(state)
    } else {
        match after_faults(state, policy, ignore_reports(task.errors)) {
            Err(failed) => Err(failed),
            Ok(next) => match read_by(world, walker, reported(task)) {
                Read::Cycle => Ok(next),
                Read::Unidentified(failure) => after_fault(
                    next,
                    policy,
                    unidentified(walker, task, failure),
                    is_root,
                ),
                Read::Unreadable(failure) => after_fault(
                    next,
                    policy,
                    unreadable(task, failure),
                    is_root,
                ),
                Read::Opened(frame, failed) => after_opening(next, walker, frame, failed),
            },
        }
    }
}

/// A frame past its next entry.
pub open spec fn advanced<C>(frame: FrameModel<C>) -> FrameModel<C> {
    FrameModel { next_entry: frame.next_entry + 1, ..frame }
}

/// The serial walk with one more task to carry out.
pub open spec fn with_job<C>(state: StateModel<C>, job: Job<C>) -> StateModel<C> {
    StateModel { pending: state.pending.push(job), ..state }
}

/// The serial walk after the next entry of a directory, or, where there is
/// none, after the failures that waited.
pub open spec fn entry_step<C>(
    world: World<C>,
    walker: WalkerModel,
    state: StateModel<C>,
    frame: FrameModel<C>,
) -> Result<StateModel<C>, Fault> {
    let index = frame.next_entry;
    if index >= frame.listed.len() {
        after_faults(state, walker.error_policy, deferred_reports(frame.deferred))
    } else if state.cut_short {
        Ok(state)
    } else {
        let path = entry_path(world, frame, index);
        let action = action_at(world, walker, frame, index);
        match after_action(
            state,
            walker,
            advanced(frame),
            path,
            action,
            failure_behind(world, path, action),
            (world.open)(path),
            (world.identity)(frame.at.path),
        ) {
            Err(failed) => Err(failed),
            Ok((next, Afterwards::Continue(frame))) => Ok(with_job(next, Job::Resume(frame))),
            Ok((next, Afterwards::Visit(frame, entry))) => Ok(
                with_job(
                    after_verdict(next, entry, (world.verdict)(entry)),
                    Job::Resume(frame),
                ),
            ),
            Ok((next, Afterwards::Left)) => Ok(next),
        }
    }
}

/// The serial walk after its next task.
pub open spec fn step<C>(world: World<C>, walker: WalkerModel, state: StateModel<C>) -> Result<
    StateModel<C>,
    Fault,
> {
    let rest = StateModel { pending: state.pending.drop_last(), ..state };
    match state.pending.last() {
        Job::Emit(entry) => Ok(after_verdict(rest, entry, (world.verdict)(entry))),
        Job::Directory(task) => directory_step(world, walker, rest, task),
        Job::Resume(frame) => entry_step(world, walker, rest, taken_up(frame)),
    }
}

/// Whether a serial walk comes to `end` in this many steps.
pub open spec fn runs_to<C>(
    world: World<C>,
    walker: WalkerModel,
    state: StateModel<C>,
    steps: nat,
    end: StateModel<C>,
) -> bool
    decreases steps,
{
    if steps == 0 {
        state == end
    } else {
        state.pending.len() > 0 && match step(world, walker, state) {
            Ok(next) => runs_to(world, walker, next, (steps - 1) as nat, end),
            Err(_) => false,
        }
    }
}

/// A directory, taken to lie under another root.
pub open spec fn task_under<C>(task: TaskModel<C>, root: spec_fn(int) -> int) -> TaskModel<C> {
    TaskModel { root: root(task.root), ..task }
}

/// A frame, taken to lie under another root.
pub open spec fn frame_under<C>(frame: FrameModel<C>, root: spec_fn(int) -> int) -> FrameModel<C> {
    FrameModel { at: task_under(frame.at, root), ..frame }
}

/// A task of a walk, taken to lie under another root.
pub open spec fn job_under<C>(job: Job<C>, root: spec_fn(int) -> int) -> Job<C> {
    match job {
        Job::Directory(task) => Job::Directory(task_under(task, root)),
        Job::Resume(frame) => Job::Resume(frame_under(frame, root)),
        Job::Emit(entry) => Job::Emit(entry),
    }
}

/// Tasks of a walk, taken to lie under other roots.
pub open spec fn jobs_under<C>(jobs: Seq<Job<C>>, root: spec_fn(int) -> int) -> Seq<Job<C>> {
    Seq::new(jobs.len(), |i: int| job_under(jobs[i], root))
}

/// A walk in the middle of a longer one: what was found before it, what waits
/// below it, and where its roots are there.
pub open spec fn within<C>(
    state: StateModel<C>,
    found: Seq<Entry>,
    faults: Seq<Fault>,
    below: Seq<Job<C>>,
    root: spec_fn(int) -> int,
) -> StateModel<C> {
    StateModel {
        found: found + state.found,
        faults: faults + state.faults,
        pending: below + jobs_under(state.pending, root),
        cut_short: state.cut_short,
    }
}

/// Whether two walks are alike but for their roots.
pub open spec fn alike_but_for_roots(walker: WalkerModel, other: WalkerModel) -> bool {
    walker == (WalkerModel {
        roots: walker.roots,
        include_sources: walker.include_sources,
        exclude_sources: walker.exclude_sources,
        ..other
    })
}

/// Whether the root of a task is the same in two walks.
pub open spec fn same_root<C>(
    job: Job<C>,
    part: WalkerModel,
    whole: WalkerModel,
    root: spec_fn(int) -> int,
) -> bool {
    match job {
        Job::Directory(task) => part.roots[task.root] == whole.roots[root(task.root)],
        Job::Resume(frame) => part.roots[frame.at.root] == whole.roots[root(frame.at.root)],
        Job::Emit(_) => true,
    }
}

/// Whether the roots of all tasks are the same in two walks.
pub open spec fn same_roots<C>(
    jobs: Seq<Job<C>>,
    part: WalkerModel,
    whole: WalkerModel,
    root: spec_fn(int) -> int,
) -> bool {
    forall|i: int| 0 <= i < jobs.len() ==> same_root(#[trigger] jobs[i], part, whole, root)
}

proof fn lemma_push_within<C>(
    state: StateModel<C>,
    job: Job<C>,
    found: Seq<Entry>,
    faults: Seq<Fault>,
    below: Seq<Job<C>>,
    root: spec_fn(int) -> int,
)
    ensures
        within(with_job(state, job), found, faults, below, root) == with_job(
            within(state, found, faults, below, root),
            job_under(job, root),
        ),
{
    assert(jobs_under(state.pending.push(job), root) =~= jobs_under(state.pending, root).push(
        job_under(job, root),
    ));
    assert(below + jobs_under(state.pending, root).push(job_under(job, root)) =~= (below
        + jobs_under(state.pending, root)).push(job_under(job, root)));
}

proof fn lemma_faults_within<C>(
    state: StateModel<C>,
    walker: WalkerModel,
    failed: Seq<Fault>,
    found: Seq<Entry>,
    faults: Seq<Fault>,
    below: Seq<Job<C>>,
    root: spec_fn(int) -> int,
)
    ensures
        after_faults(
            within(state, found, faults, below, root),
            walker.error_policy,
            failed,
        ) == (match after_faults(state, walker.error_policy, failed) {
            Ok(next) => Ok::<StateModel<C>, Fault>(within(next, found, faults, below, root)),
            Err(first) => Err(first),
        }),
        forall|one: Fault, is_root: bool| #[trigger]
            after_fault(
                within(state, found, faults, below, root),
                walker.error_policy,
                one,
                is_root,
            ) == (match after_fault(state, walker.error_policy, one, is_root) {
                Ok(next) => Ok::<StateModel<C>, Fault>(within(next, found, faults, below, root)),
                Err(first) => Err(first),
            }),
{
    assert(faults + (state.faults + failed) =~= faults + state.faults + failed);
    assert forall|one: Fault, is_root: bool| #[trigger]
        after_fault(
            within(state, found, faults, below, root),
            walker.error_policy,
            one,
            is_root,
        ) == (match after_fault(state, walker.error_policy, one, is_root) {
            Ok(next) => Ok::<StateModel<C>, Fault>(within(next, found, faults, below, root)),
            Err(first) => Err(first),
        }) by {
        assert(faults + state.faults.push(one) =~= (faults + state.faults).push(one));
    }
}

proof fn lemma_verdict_within<C>(
    state: StateModel<C>,
    entry: Entry,
    verdict: Verdict,
    found: Seq<Entry>,
    faults: Seq<Fault>,
    below: Seq<Job<C>>,
    root: spec_fn(int) -> int,
)
    ensures
        within(after_verdict(state, entry, verdict), found, faults, below, root) == after_verdict(
            within(state, found, faults, below, root),
            entry,
            verdict,
        ),
{
    assert(found + state.found.push(entry) =~= (found + state.found).push(entry));
}

proof fn lemma_descent_within<C>(
    state: StateModel<C>,
    frame: FrameModel<C>,
    entry: Option<Entry>,
    child: TaskModel<C>,
    found: Seq<Entry>,
    faults: Seq<Fault>,
    below: Seq<Job<C>>,
    root: spec_fn(int) -> int,
)
    ensures
        within(after_descent(state, frame, entry, child), found, faults, below, root)
            == after_descent(
            within(state, found, faults, below, root),
            frame_under(frame, root),
            entry,
            task_under(child, root),
        ),
{
    let first = with_job(state, Job::Resume(frame));
    lemma_push_within(state, Job::Resume(frame), found, faults, below, root);
    match entry {
        Some(entry) => {
            lemma_push_within(first, Job::Emit(entry), found, faults, below, root);
            lemma_push_within(
                with_job(first, Job::Emit(entry)),
                Job::Directory(child),
                found,
                faults,
                below,
                root,
            );
        },
        None => {
            lemma_push_within(first, Job::Directory(child), found, faults, below, root);
        },
    }
}

proof fn lemma_read_within<C>(
    world: World<C>,
    part: WalkerModel,
    whole: WalkerModel,
    task: TaskModel<C>,
    root: spec_fn(int) -> int,
)
    requires
        alike_but_for_roots(whole, part),
    ensures
        read_by(world, whole, task_under(task, root)) == (match read_by(world, part, task) {
            Read::Opened(frame, failed) => Read::Opened(frame_under(frame, root), failed),
            other => other,
        }),
        match read_by(world, part, task) {
            Read::Opened(frame, _) => frame.at.root == task.root,
            _ => true,
        },
{
}

proof fn lemma_directory_within<C>(
    world: World<C>,
    part: WalkerModel,
    whole: WalkerModel,
    state: StateModel<C>,
    task: TaskModel<C>,
    found: Seq<Entry>,
    faults: Seq<Fault>,
    below: Seq<Job<C>>,
    root: spec_fn(int) -> int,
)
    requires
        alike_but_for_roots(whole, part),
        same_roots(state.pending, part, whole, root),
        same_root(Job::Directory(task), part, whole, root),
    ensures
        match directory_step(world, part, state, task) {
            Ok(next) => directory_step(
                world,
                whole,
                within(state, found, faults, below, root),
                task_under(task, root),
            ) == Ok::<StateModel<C>, Fault>(within(next, found, faults, below, root))
                && same_roots(next.pending, part, whole, root),
            Err(failed) => directory_step(
                world,
                whole,
                within(state, found, faults, below, root),
                task_under(task, root),
            ) == Err::<StateModel<C>, Fault>(failed),
        },
{
    let early = ignore_reports(task.errors);
    lemma_faults_within(state, part, early, found, faults, below, root);
    if !state.cut_short {
        match after_faults(state, part.error_policy, early) {
            Ok(next) => {
                lemma_read_within(world, part, whole, reported(task), root);
                assert(reported(task_under(task, root)) == task_under(reported(task), root));
                lemma_faults_within(next, part, Seq::empty(), found, faults, below, root);
                match read_by(world, part, reported(task)) {
                    Read::Opened(frame, failed) => {
                        lemma_faults_within(next, part, failed, found, faults, below, root);
                        match after_faults(next, part.error_policy, failed) {
                            Ok(after) => {
                                lemma_push_within(
                                    after,
                                    Job::Resume(frame),
                                    found,
                                    faults,
                                    below,
                                    root,
                                );
                            },
                            Err(_) => {},
                        }
                    },
                    Read::Unidentified(failure) => {
                        assert(unidentified(whole, task_under(task, root), failure)
                            == unidentified(part, task, failure));
                    },
                    Read::Unreadable(failure) => {
                        assert(unreadable(task_under(task, root), failure) == unreadable(
                            task,
                            failure,
                        ));
                    },
                    Read::Cycle => {},
                }
            },
            Err(_) => {},
        }
    }
}

proof fn lemma_entry_within<C>(
    world: World<C>,
    part: WalkerModel,
    whole: WalkerModel,
    state: StateModel<C>,
    frame: FrameModel<C>,
    found: Seq<Entry>,
    faults: Seq<Fault>,
    below: Seq<Job<C>>,
    root: spec_fn(int) -> int,
)
    requires
        alike_but_for_roots(whole, part),
        same_roots(state.pending, part, whole, root),
        same_root(Job::Resume(frame), part, whole, root),
    ensures
        match entry_step(world, part, state, frame) {
            Ok(next) => entry_step(
                world,
                whole,
                within(state, found, faults, below, root),
                frame_under(frame, root),
            ) == Ok::<StateModel<C>, Fault>(within(next, found, faults, below, root))
                && same_roots(next.pending, part, whole, root),
            Err(failed) => entry_step(
                world,
                whole,
                within(state, found, faults, below, root),
                frame_under(frame, root),
            ) == Err::<StateModel<C>, Fault>(failed),
        },
{
    let index = frame.next_entry;
    let moved = frame_under(frame, root);
    let inside = within(state, found, faults, below, root);
    if index >= frame.listed.len() {
        lemma_faults_within(
            state,
            part,
            deferred_reports(frame.deferred),
            found,
            faults,
            below,
            root,
        );
    } else if !state.cut_short {
        let path = entry_path(world, frame, index);
        let action = action_at(world, part, frame, index);
        law_a_walk_of_one_root_reads_an_entry_alike(
            whole,
            part,
            candidate(world, frame, index),
            root(frame.at.root),
            answered((world.target)(path)),
            answered((world.own)(path)),
        );
        assert(candidate(world, moved, index) == (Candidate {
            root: root(frame.at.root),
            ..candidate(world, frame, index)
        }));
        assert(action_at(world, whole, moved, index) == action);
        assert(advanced(moved) == frame_under(advanced(frame), root));
        let identity = (world.identity)(frame.at.path);
        let aside = set_aside(advanced(frame), identity);
        assert(set_aside(advanced(moved), identity) == frame_under(aside, root));
        let open = (world.open)(path);
        let child = child_of(frame.at, path, open);
        assert(child_of(moved.at, path, open) == task_under(child, root));
        match action {
            EntryAction::Ask(_) | EntryAction::Skip => {
                lemma_push_within(
                    state,
                    Job::Resume(advanced(frame)),
                    found,
                    faults,
                    below,
                    root,
                );
            },
            EntryAction::Emit(emitted) => {
                let entry = emitted_at(emitted, path, part.roots[frame.at.root].path);
                let verdict = (world.verdict)(entry);
                lemma_verdict_within(state, entry, verdict, found, faults, below, root);
                lemma_push_within(
                    after_verdict(state, entry, verdict),
                    Job::Resume(advanced(frame)),
                    found,
                    faults,
                    below,
                    root,
                );
            },
            EntryAction::Descend => {
                lemma_descent_within(state, aside, None, child, found, faults, below, root);
            },
            EntryAction::DescendAndEmit(emitted) => {
                let entry = emitted_at(emitted, path, part.roots[frame.at.root].path);
                lemma_descent_within(state, aside, Some(entry), child, found, faults, below, root);
            },
            EntryAction::Failed { question, descend } => {
                let failure = failure_behind(world, path, action);
                let failed = fault(question_operation(question), path, failure->0);
                lemma_faults_within(state, part, Seq::empty(), found, faults, below, root);
                match after_fault(state, part.error_policy, failed, false) {
                    Ok(next) => {
                        assert(after_fault(inside, part.error_policy, failed, false) == Ok::<
                            StateModel<C>,
                            Fault,
                        >(within(next, found, faults, below, root)));
                        if descend {
                            lemma_descent_within(
                                next,
                                aside,
                                None,
                                child,
                                found,
                                faults,
                                below,
                                root,
                            );
                        } else {
                            lemma_push_within(
                                next,
                                Job::Resume(advanced(frame)),
                                found,
                                faults,
                                below,
                                root,
                            );
                        }
                    },
                    Err(_) => {
                        assert(after_fault(inside, part.error_policy, failed, false) is Err);
                    },
                }
            },
        }
    }
}

/// What a walk does next does not depend on what was found before it, on what
/// waits below it, or on which root is its first: a step in the middle of a
/// longer walk is the step it is on its own.
pub proof fn law_a_step_minds_its_own_business<C>(
    world: World<C>,
    part: WalkerModel,
    whole: WalkerModel,
    state: StateModel<C>,
    found: Seq<Entry>,
    faults: Seq<Fault>,
    below: Seq<Job<C>>,
    root: spec_fn(int) -> int,
)
    requires
        state.pending.len() > 0,
        alike_but_for_roots(whole, part),
        same_roots(state.pending, part, whole, root),
    ensures
        match step(world, part, state) {
            Ok(next) => step(world, whole, within(state, found, faults, below, root)) == Ok::<
                StateModel<C>,
                Fault,
            >(within(next, found, faults, below, root)) && same_roots(
                next.pending,
                part,
                whole,
                root,
            ),
            Err(failed) => step(world, whole, within(state, found, faults, below, root)) == Err::<
                StateModel<C>,
                Fault,
            >(failed),
        },
{
    let inside = within(state, found, faults, below, root);
    let rest = StateModel { pending: state.pending.drop_last(), ..state };
    let last = state.pending.last();
    assert(inside.pending.last() == job_under(last, root));
    assert(inside.pending.drop_last() =~= below + jobs_under(state.pending.drop_last(), root));
    assert(within(rest, found, faults, below, root) == (StateModel {
        pending: inside.pending.drop_last(),
        ..inside
    }));
    assert(same_root(state.pending[state.pending.len() - 1], part, whole, root));
    assert(same_roots(rest.pending, part, whole, root)) by {
        assert forall|i: int| 0 <= i < rest.pending.len() implies same_root(
            #[trigger] rest.pending[i],
            part,
            whole,
            root,
        ) by {
            assert(rest.pending[i] == state.pending[i]);
        }
    }
    match last {
        Job::Emit(entry) => {
            lemma_verdict_within(
                rest,
                entry,
                (world.verdict)(entry),
                found,
                faults,
                below,
                root,
            );
        },
        Job::Directory(task) => {
            lemma_directory_within(
                world,
                part,
                whole,
                rest,
                task,
                found,
                faults,
                below,
                root,
            );
        },
        Job::Resume(frame) => {
            assert(taken_up(frame_under(frame, root)) == frame_under(taken_up(frame), root));
            lemma_entry_within(
                world,
                part,
                whole,
                rest,
                taken_up(frame),
                found,
                faults,
                below,
                root,
            );
        },
    }
}

/// A walk in the middle of a longer one runs as it does on its own, and leaves
/// what waits below it as it was.
pub proof fn law_a_walk_runs_the_same_within_a_longer_one<C>(
    world: World<C>,
    part: WalkerModel,
    whole: WalkerModel,
    state: StateModel<C>,
    steps: nat,
    end: StateModel<C>,
    found: Seq<Entry>,
    faults: Seq<Fault>,
    below: Seq<Job<C>>,
    root: spec_fn(int) -> int,
)
    requires
        alike_but_for_roots(whole, part),
        same_roots(state.pending, part, whole, root),
        runs_to(world, part, state, steps, end),
    ensures
        runs_to(
            world,
            whole,
            within(state, found, faults, below, root),
            steps,
            within(end, found, faults, below, root),
        ),
    decreases steps,
{
    if steps > 0 {
        law_a_step_minds_its_own_business(
            world,
            part,
            whole,
            state,
            found,
            faults,
            below,
            root,
        );
        let next = step(world, part, state)->Ok_0;
        law_a_walk_runs_the_same_within_a_longer_one(
            world,
            part,
            whole,
            next,
            (steps - 1) as nat,
            end,
            found,
            faults,
            below,
            root,
        );
    }
}

proof fn lemma_runs_follow<C>(
    world: World<C>,
    walker: WalkerModel,
    state: StateModel<C>,
    steps: nat,
    middle: StateModel<C>,
    more: nat,
    end: StateModel<C>,
)
    requires
        runs_to(world, walker, state, steps, middle),
        runs_to(world, walker, middle, more, end),
    ensures
        runs_to(world, walker, state, steps + more, end),
    decreases steps,
{
    if steps > 0 {
        let next = step(world, walker, state)->Ok_0;
        lemma_runs_follow(world, walker, next, (steps - 1) as nat, middle, more, end);
        assert((steps + more - 1) as nat == (steps - 1) as nat + more);
    }
}

/// The walk of one of the roots alone.
pub open spec fn alone(walker: WalkerModel, root: int) -> WalkerModel {
    WalkerModel { roots: seq![walker.roots[root]], ..walker }
}

/// The task of a root in a walk of it alone.
pub open spec fn as_first<C>(task: TaskModel<C>) -> TaskModel<C> {
    TaskModel { root: 0, ..task }
}

/// The tasks of the roots from the one of this number on, the first one last.
pub open spec fn roots_from<C>(roots: Seq<TaskModel<C>>, from: int) -> Seq<Job<C>>
    decreases roots.len() - from,
{
    if from >= roots.len() {
        Seq::empty()
    } else {
        roots_from(roots, from + 1).push(Job::Directory(roots[from]))
    }
}

proof fn lemma_roots_in_order<C>(roots: Seq<TaskModel<C>>, from: int)
    requires
        0 <= from <= roots.len(),
    ensures
        roots_from(roots, from) == root_jobs(roots).take(roots.len() - from),
    decreases roots.len() - from,
{
    if from < roots.len() {
        lemma_roots_in_order(roots, from + 1);
        assert(roots_from(roots, from) =~= root_jobs(roots).take(roots.len() - from));
    }
}

/// What walks found, one after the other, from the one of this number on.
pub open spec fn found_from<C>(ends: Seq<StateModel<C>>, from: int) -> Seq<Entry>
    decreases ends.len() - from,
{
    if from >= ends.len() {
        Seq::empty()
    } else {
        ends[from].found + found_from(ends, from + 1)
    }
}

/// What failed in walks, one after the other, from the one of this number on.
pub open spec fn faults_from<C>(ends: Seq<StateModel<C>>, from: int) -> Seq<Fault>
    decreases ends.len() - from,
{
    if from >= ends.len() {
        Seq::empty()
    } else {
        ends[from].faults + faults_from(ends, from + 1)
    }
}

/// How many steps walks took, from the one of this number on.
pub open spec fn steps_from(steps: Seq<nat>, from: int) -> nat
    decreases steps.len() - from,
{
    if from >= steps.len() {
        0
    } else {
        steps[from] + steps_from(steps, from + 1)
    }
}

/// Whether a walk has nothing left to do and was not cut short.
pub open spec fn finished<C>(state: StateModel<C>) -> bool {
    state.pending.len() == 0 && !state.cut_short
}

/// Whether each root, walked alone, comes to its end in its number of steps.
pub open spec fn each_runs_alone<C>(
    world: World<C>,
    walker: WalkerModel,
    roots: Seq<TaskModel<C>>,
    steps: Seq<nat>,
    ends: Seq<StateModel<C>>,
) -> bool {
    &&& steps.len() == roots.len()
    &&& ends.len() == roots.len()
    &&& forall|i: int|
        0 <= i < roots.len() ==> #[trigger] roots[i].root == i && finished(ends[i]) && runs_to(
            world,
            alone(walker, i),
            fresh_state(seq![Job::Directory(as_first(roots[i]))]),
            steps[i],
            ends[i],
        )
}

proof fn lemma_roots_run<C>(
    world: World<C>,
    walker: WalkerModel,
    roots: Seq<TaskModel<C>>,
    steps: Seq<nat>,
    ends: Seq<StateModel<C>>,
    from: int,
)
    requires
        each_runs_alone(world, walker, roots, steps, ends),
        0 <= from <= roots.len(),
    ensures
        runs_to(
            world,
            walker,
            fresh_state(roots_from(roots, from)),
            steps_from(steps, from),
            StateModel {
                found: found_from(ends, from),
                faults: faults_from(ends, from),
                pending: Seq::empty(),
                cut_short: false,
            },
        ),
    decreases roots.len() - from,
{
    if from < roots.len() {
        lemma_roots_run(world, walker, roots, steps, ends, from + 1);
        assert(roots[from].root == from);
        let later = roots_from(roots, from + 1);
        let single = fresh_state(seq![Job::Directory(as_first(roots[from]))]);
        let end = ends[from];
        let there = |r: int| from;
        let nothing = Seq::<Entry>::empty();
        let no_fault = Seq::<Fault>::empty();
        assert(same_roots(single.pending, alone(walker, from), walker, there));
        law_a_walk_runs_the_same_within_a_longer_one(
            world,
            alone(walker, from),
            walker,
            single,
            steps[from],
            end,
            nothing,
            no_fault,
            later,
            there,
        );
        let start = fresh_state(roots_from(roots, from));
        assert(within(single, nothing, no_fault, later, there) == start) by {
            assert(task_under(as_first(roots[from]), there) == roots[from]);
            assert(jobs_under(single.pending, there) =~= seq![Job::Directory(roots[from])]);
            assert(later + seq![Job::Directory(roots[from])] =~= later.push(
                Job::Directory(roots[from]),
            ));
            assert(nothing + single.found =~= nothing);
            assert(no_fault + single.faults =~= no_fault);
        }
        let middle = within(end, nothing, no_fault, later, there);
        let here = |r: int| r;
        let rest = fresh_state(later);
        let last = StateModel {
            found: found_from(ends, from + 1),
            faults: faults_from(ends, from + 1),
            pending: Seq::<Job<C>>::empty(),
            cut_short: false,
        };
        assert(same_roots(rest.pending, walker, walker, here)) by {
            assert forall|i: int| 0 <= i < rest.pending.len() implies same_root(
                #[trigger] rest.pending[i],
                walker,
                walker,
                here,
            ) by {}
        }
        law_a_walk_runs_the_same_within_a_longer_one(
            world,
            walker,
            walker,
            rest,
            steps_from(steps, from + 1),
            last,
            end.found,
            end.faults,
            Seq::empty(),
            here,
        );
        assert(within(rest, end.found, end.faults, Seq::empty(), here) == middle) by {
            assert forall|i: int| 0 <= i < later.len() implies job_under(
                #[trigger] later[i],
                here,
            ) == later[i] by {
                match later[i] {
                    Job::Directory(task) => {
                        assert(task_under(task, here) == task);
                    },
                    Job::Resume(frame) => {
                        assert(frame_under(frame, here) == frame);
                    },
                    Job::Emit(_) => {},
                }
            }
            assert(Seq::<Job<C>>::empty() + jobs_under(later, here) =~= later);
            assert(later + jobs_under(end.pending, there) =~= later);
            assert(end.found + rest.found =~= nothing + end.found);
            assert(end.faults + rest.faults =~= no_fault + end.faults);
        }
        let all = within(last, end.found, end.faults, Seq::empty(), here);
        assert(all.pending =~= Seq::empty());
        lemma_runs_follow(
            world,
            walker,
            start,
            steps[from],
            middle,
            steps_from(steps, from + 1),
            all,
        );
    }
}

/// A walk of several roots is the walks of each of them alone, one after the
/// other: it finds what they find and fails as they fail, in their order.
pub proof fn law_a_multi_root_walk_is_the_concatenation_of_the_single_root_walks<C>(
    world: World<C>,
    walker: WalkerModel,
    roots: Seq<TaskModel<C>>,
    steps: Seq<nat>,
    ends: Seq<StateModel<C>>,
)
    requires
        each_runs_alone(world, walker, roots, steps, ends),
    ensures
        runs_to(
            world,
            walker,
            fresh_state(root_jobs(roots)),
            steps_from(steps, 0),
            StateModel {
                found: found_from(ends, 0),
                faults: faults_from(ends, 0),
                pending: Seq::empty(),
                cut_short: false,
            },
        ),
{
    lemma_roots_run(world, walker, roots, steps, ends, 0);
    lemma_roots_in_order(roots, 0);
    assert(root_jobs(roots).take(roots.len() as int) =~= root_jobs(roots));
}

/// The same filesystem, with a visitor that keeps every entry.
pub open spec fn keeping<C>(world: World<C>) -> World<C> {
    World { verdict: |entry: Entry| Verdict::Keep, ..world }
}

/// Whether the visitor keeps every entry.
pub open spec fn keeps_everything<C>(world: World<C>) -> bool {
    forall|entry: Entry| #[trigger] (world.verdict)(entry) == Verdict::Keep
}

/// Whether the visitor keeps an entry.
pub open spec fn keeps<C>(world: World<C>) -> spec_fn(Entry) -> bool {
    |entry: Entry| (world.verdict)(entry) == Verdict::Keep
}

/// Whether the visitor never ends the walk.
pub open spec fn lets_the_walk_go_on<C>(world: World<C>) -> bool {
    forall|entry: Entry| #[trigger] (world.verdict)(entry) != Verdict::Stop
}

/// A walk with what it found sifted.
pub open spec fn sifted<C>(state: StateModel<C>, keep: spec_fn(Entry) -> bool) -> StateModel<C> {
    StateModel { found: state.found.filter(keep), ..state }
}

proof fn lemma_sifted_verdict<C>(world: World<C>, state: StateModel<C>, entry: Entry)
    requires
        lets_the_walk_go_on(world),
    ensures
        after_verdict(sifted(state, keeps(world)), entry, (world.verdict)(entry)) == sifted(
            after_verdict(state, entry, Verdict::Keep),
            keeps(world),
        ),
{
    reveal(Seq::filter);
    let longer = state.found.push(entry);
    assert(longer.drop_last() =~= state.found);
    assert(longer.last() == entry);
}

proof fn lemma_sifted_entry_step<C>(
    world: World<C>,
    walker: WalkerModel,
    state: StateModel<C>,
    frame: FrameModel<C>,
)
    requires
        lets_the_walk_go_on(world),
    ensures
        entry_step(world, walker, sifted(state, keeps(world)), frame) == (match entry_step(
            keeping(world),
            walker,
            state,
            frame,
        ) {
            Ok(next) => Ok::<StateModel<C>, Fault>(sifted(next, keeps(world))),
            Err(failed) => Err(failed),
        }),
{
    let index = frame.next_entry;
    let path = entry_path(world, frame, index);
    let action = action_at(world, walker, frame, index);
    assert(action_at(keeping(world), walker, frame, index) == action);
    assert(failure_behind(keeping(world), path, action) == failure_behind(world, path, action));
    match action {
        EntryAction::Emit(emitted) => {
            let entry = emitted_at(emitted, path, walker.roots[frame.at.root].path);
            lemma_sifted_verdict(world, state, entry);
        },
        _ => {},
    }
}

/// A step of a walk with a visitor that keeps some entries is the step of the
/// same walk that keeps all of them, with what it found sifted.
pub proof fn law_a_visitor_only_sifts<C>(
    world: World<C>,
    walker: WalkerModel,
    state: StateModel<C>,
)
    requires
        lets_the_walk_go_on(world),
    ensures
        step(world, walker, sifted(state, keeps(world))) == (match step(
            keeping(world),
            walker,
            state,
        ) {
            Ok(next) => Ok::<StateModel<C>, Fault>(sifted(next, keeps(world))),
            Err(failed) => Err(failed),
        }),
{
    let rest = StateModel { pending: state.pending.drop_last(), ..state };
    match state.pending.last() {
        Job::Emit(entry) => {
            lemma_sifted_verdict(world, rest, entry);
        },
        Job::Directory(task) => {
            assert(read_by(keeping(world), walker, reported(task)) == read_by(
                world,
                walker,
                reported(task),
            ));
        },
        Job::Resume(frame) => {
            lemma_sifted_entry_step(world, walker, rest, taken_up(frame));
        },
    }
}

/// A visit keeps what the same filter keeps of everything the walk finds, in
/// the same order, and fails as the walk fails.
pub proof fn law_a_visit_keeps_what_the_same_filter_keeps<C>(
    world: World<C>,
    walker: WalkerModel,
    state: StateModel<C>,
    steps: nat,
    end: StateModel<C>,
)
    requires
        lets_the_walk_go_on(world),
        runs_to(keeping(world), walker, state, steps, end),
    ensures
        runs_to(
            world,
            walker,
            sifted(state, keeps(world)),
            steps,
            sifted(end, keeps(world)),
        ),
    decreases steps,
{
    if steps > 0 {
        law_a_visitor_only_sifts(world, walker, state);
        let next = step(keeping(world), walker, state)->Ok_0;
        law_a_visit_keeps_what_the_same_filter_keeps(
            world,
            walker,
            next,
            (steps - 1) as nat,
            end,
        );
    }
}

} // verus!
