//! The serial walk and the stream say the same, in orders of their own.
//!
//! What a walk of a finite tree says does not depend on the order in which its
//! directories are taken up: it is what the tree below each root has to say.
//! Both frontends say exactly that.
use vstd::multiset::Multiset;
use vstd::prelude::*;
use vstd::seq_lib::group_to_multiset_ensures;

use crate::classify::EntryAction;
use crate::options::{fault, Entry, ErrorPolicy, Fault, Verdict};
use crate::runs::{
    action_at, advanced, child_at, directory_step, entry_path, entry_step, failure_behind,
    finished, keeps_everything, read_by, runs_to, step, unidentified, unreadable, with_job, Read, World,
};
use crate::stream::{
    after_entry, after_failed_read, after_failure, after_giving_up, after_ignore_errors,
    after_preparing,
    is_fresh_stream, turned, with_waiting, StreamModel, TurnModel,
};
use crate::walk::{
    after_descent, after_fault, after_faults, after_verdict, child_of, deferred_report,
    deferred_reports, emitted_at, fresh_state, ignore_reports, question_operation, reaction,
    reported, root_jobs, set_aside, taken_up, DirectoryOpen, FrameModel, Job, Reaction,
    StateModel, TaskModel,
};
use crate::walker::WalkerModel;

verus! {

/// Failures, as items of a walk.
pub open spec fn failed_items(faults: Seq<Fault>) -> Seq<Result<Entry, Fault>> {
    Seq::new(faults.len(), |i: int| Err::<Entry, Fault>(faults[i]))
}

/// Entries, as items of a walk.
pub open spec fn found_items(entries: Seq<Entry>) -> Seq<Result<Entry, Fault>> {
    Seq::new(entries.len(), |i: int| Ok::<Entry, Fault>(entries[i]))
}

/// One item.
pub open spec fn one(item: Result<Entry, Fault>) -> Multiset<Result<Entry, Fault>> {
    Multiset::singleton(item)
}

/// No item.
pub open spec fn nothing() -> Multiset<Result<Entry, Fault>> {
    Multiset::empty()
}

/// What is said of a failure.
pub open spec fn of_fault(policy: ErrorPolicy, failed: Fault, is_root: bool) -> Multiset<
    Result<Entry, Fault>,
> {
    match reaction(policy, is_root) {
        Reaction::Drop => nothing(),
        _ => one(Err(failed)),
    }
}

/// What is said of failures that no root depends on.
pub open spec fn of_faults(policy: ErrorPolicy, failed: Seq<Fault>) -> Multiset<
    Result<Entry, Fault>,
> {
    match policy {
        ErrorPolicy::Skip => nothing(),
        _ => failed_items(failed).to_multiset(),
    }
}

/// Whether an action leads into a directory.
pub open spec fn leads_on(action: EntryAction) -> bool {
    match action {
        EntryAction::Descend | EntryAction::DescendAndEmit(_) => true,
        EntryAction::Failed { descend, .. } => descend,
        _ => false,
    }
}

/// What is said of an entry of a directory itself.
pub open spec fn of_entry<C>(
    world: World<C>,
    walker: WalkerModel,
    frame: FrameModel<C>,
    index: int,
) -> Multiset<Result<Entry, Fault>> {
    let path = entry_path(world, frame, index);
    let root = walker.roots[frame.at.root].path;
    let action = action_at(world, walker, frame, index);
    match action {
        EntryAction::Emit(emitted) | EntryAction::DescendAndEmit(emitted) => one(
            Ok(emitted_at(emitted, path, root)),
        ),
        EntryAction::Failed { question, .. } => of_fault(
            walker.error_policy,
            fault(
                question_operation(question),
                path,
                failure_behind(world, path, action)->0,
            ),
            false,
        ),
        _ => nothing(),
    }
}

/// What a directory and everything in it has to say, `height` levels down.
pub open spec fn of_directory<C>(
    world: World<C>,
    walker: WalkerModel,
    task: TaskModel<C>,
    height: nat,
) -> Multiset<Result<Entry, Fault>>
    decreases height, 1nat, 0int,
{
    let policy = walker.error_policy;
    let is_root = task.depth == 0;
    of_faults(policy, ignore_reports(task.errors)).add(
        match read_by(world, walker, reported(task)) {
            Read::Cycle => nothing(),
            Read::Unidentified(failure) => of_fault(
                policy,
                unidentified(walker, task, failure),
                is_root,
            ),
            Read::Unreadable(failure) => of_fault(policy, unreadable(task, failure), is_root),
            Read::Opened(frame, failed) => of_faults(policy, failed).add(
                of_rest(world, walker, frame, height),
            ),
        },
    )
}

/// What the entries of a directory that are left have to say, and the failures
/// that waited for them.
pub open spec fn of_rest<C>(
    world: World<C>,
    walker: WalkerModel,
    frame: FrameModel<C>,
    height: nat,
) -> Multiset<Result<Entry, Fault>>
    decreases height, 0nat, frame.listed.len() - frame.next_entry,
{
    let index = frame.next_entry;
    if index >= frame.listed.len() {
        of_faults(walker.error_policy, deferred_reports(frame.deferred))
    } else {
        of_entry(world, walker, frame, index).add(
            if leads_on(action_at(world, walker, frame, index)) && height > 0 {
                of_directory(world, walker, child_at(world, frame, index), (height - 1) as nat)
            } else {
                nothing()
            },
        ).add(of_rest(world, walker, advanced(frame), height))
    }
}

/// Whether the tree a directory leads to ends within `height` levels.
pub open spec fn ends_within<C>(
    world: World<C>,
    walker: WalkerModel,
    task: TaskModel<C>,
    height: nat,
) -> bool
    decreases height, 1nat, 0int,
{
    match read_by(world, walker, reported(task)) {
        Read::Opened(frame, _) => rest_ends_within(world, walker, frame, height),
        _ => true,
    }
}

/// Whether the trees that the entries of a directory that are left lead to end
/// within `height` levels.
pub open spec fn rest_ends_within<C>(
    world: World<C>,
    walker: WalkerModel,
    frame: FrameModel<C>,
    height: nat,
) -> bool
    decreases height, 0nat, frame.listed.len() - frame.next_entry,
{
    let index = frame.next_entry;
    index >= frame.listed.len() || {
        &&& leads_on(action_at(world, walker, frame, index)) ==> height > 0 && ends_within(
            world,
            walker,
            child_at(world, frame, index),
            (height - 1) as nat,
        )
        &&& rest_ends_within(world, walker, advanced(frame), height)
    }
}

/// A frame whose directory is held in another way.
pub open spec fn held<C>(frame: FrameModel<C>, open: DirectoryOpen<C>) -> FrameModel<C> {
    FrameModel { at: TaskModel { open, ..frame.at }, ..frame }
}

proof fn lemma_how_a_directory_is_held_does_not_matter<C>(
    world: World<C>,
    walker: WalkerModel,
    frame: FrameModel<C>,
    open: DirectoryOpen<C>,
    height: nat,
)
    ensures
        of_rest(world, walker, held(frame, open), height) == of_rest(world, walker, frame, height),
        rest_ends_within(world, walker, held(frame, open), height) == rest_ends_within(
            world,
            walker,
            frame,
            height,
        ),
    decreases frame.listed.len() - frame.next_entry,
{
    let index = frame.next_entry;
    if index < frame.listed.len() {
        let other = held(frame, open);
        lemma_how_a_directory_is_held_does_not_matter(
            world,
            walker,
            advanced(frame),
            open,
            height,
        );
        assert(advanced(other) == held(advanced(frame), open));
        assert(child_at(world, other, index) == child_at(world, frame, index));
        assert(action_at(world, walker, other, index) == action_at(world, walker, frame, index));
        assert(of_entry(world, walker, other, index) == of_entry(world, walker, frame, index));
    }
}

/// What a task of the serial walk has to say, where the deepest directory lies
/// `height` levels below its root.
pub open spec fn of_job<C>(
    world: World<C>,
    walker: WalkerModel,
    job: Job<C>,
    height: int,
) -> Multiset<Result<Entry, Fault>> {
    match job {
        Job::Directory(task) => of_directory(world, walker, task, (height - task.depth) as nat),
        Job::Resume(frame) => of_rest(world, walker, frame, (height - frame.at.depth) as nat),
        Job::Emit(entry) => one(Ok(entry)),
    }
}

/// Whether a task of the serial walk leads no deeper than `height` levels below
/// its root.
pub open spec fn job_ends_within<C>(
    world: World<C>,
    walker: WalkerModel,
    job: Job<C>,
    height: int,
) -> bool {
    match job {
        Job::Directory(task) => task.depth <= height && ends_within(
            world,
            walker,
            task,
            (height - task.depth) as nat,
        ),
        Job::Resume(frame) => frame.at.depth <= height && rest_ends_within(
            world,
            walker,
            frame,
            (height - frame.at.depth) as nat,
        ),
        Job::Emit(_) => true,
    }
}

/// What tasks of the serial walk have to say together.
pub open spec fn of_jobs<C>(
    world: World<C>,
    walker: WalkerModel,
    jobs: Seq<Job<C>>,
    height: int,
) -> Multiset<Result<Entry, Fault>>
    decreases jobs.len(),
{
    if jobs.len() == 0 {
        nothing()
    } else {
        of_jobs(world, walker, jobs.drop_last(), height).add(
            of_job(world, walker, jobs.last(), height),
        )
    }
}

/// What a serial walk said so far.
pub open spec fn said<C>(state: StateModel<C>) -> Multiset<Result<Entry, Fault>> {
    found_items(state.found).to_multiset().add(failed_items(state.faults).to_multiset())
}

/// What a serial walk said and has yet to say.
pub open spec fn total<C>(
    world: World<C>,
    walker: WalkerModel,
    state: StateModel<C>,
    height: int,
) -> Multiset<Result<Entry, Fault>> {
    said(state).add(of_jobs(world, walker, state.pending, height))
}

/// Whether a serial walk goes on, and leads no deeper than `height` levels below
/// its roots.
pub open spec fn in_bounds<C>(
    world: World<C>,
    walker: WalkerModel,
    state: StateModel<C>,
    height: int,
) -> bool {
    &&& !state.cut_short
    &&& forall|i: int|
        0 <= i < state.pending.len() ==> job_ends_within(
            world,
            walker,
            #[trigger] state.pending[i],
            height,
        )
}

proof fn lemma_items_push(faults: Seq<Fault>, entries: Seq<Entry>, failed: Fault, entry: Entry)
    ensures
        failed_items(faults.push(failed)).to_multiset() == failed_items(faults).to_multiset().add(
            one(Err(failed)),
        ),
        found_items(entries.push(entry)).to_multiset() == found_items(entries).to_multiset().add(
            one(Ok(entry)),
        ),
{
    broadcast use group_to_multiset_ensures;

    assert(failed_items(faults.push(failed)) =~= failed_items(faults).push(Err(failed)));
    assert(found_items(entries.push(entry)) =~= found_items(entries).push(Ok(entry)));
    assert(failed_items(faults.push(failed)).to_multiset() =~= failed_items(
        faults,
    ).to_multiset().add(one(Err(failed))));
    assert(found_items(entries.push(entry)).to_multiset() =~= found_items(
        entries,
    ).to_multiset().add(one(Ok(entry))));
}

proof fn lemma_items_add(faults: Seq<Fault>, more: Seq<Fault>)
    ensures
        failed_items(faults + more).to_multiset() == failed_items(faults).to_multiset().add(
            failed_items(more).to_multiset(),
        ),
{
    assert(failed_items(faults + more) =~= failed_items(faults) + failed_items(more));
    vstd::seq_lib::lemma_multiset_commutative(failed_items(faults), failed_items(more));
}

proof fn lemma_total_of_fault<C>(
    world: World<C>,
    walker: WalkerModel,
    state: StateModel<C>,
    failed: Fault,
    is_root: bool,
    height: int,
)
    requires
        walker.error_policy != ErrorPolicy::Abort,
    ensures
        ({
            let next = after_fault(state, walker.error_policy, failed, is_root);
            &&& next is Ok
            &&& total(world, walker, next->Ok_0, height) == total(
                world,
                walker,
                state,
                height,
            ).add(of_fault(walker.error_policy, failed, is_root))
            &&& next->Ok_0.pending == state.pending
            &&& next->Ok_0.cut_short == state.cut_short
        }),
{
    let next = after_fault(state, walker.error_policy, failed, is_root)->Ok_0;
    lemma_items_push(state.faults, state.found, failed, arbitrary());
    assert(total(world, walker, next, height) =~= total(world, walker, state, height).add(
        of_fault(walker.error_policy, failed, is_root),
    ));
}

proof fn lemma_total_of_faults<C>(
    world: World<C>,
    walker: WalkerModel,
    state: StateModel<C>,
    failed: Seq<Fault>,
    height: int,
)
    requires
        walker.error_policy != ErrorPolicy::Abort,
    ensures
        ({
            let next = after_faults(state, walker.error_policy, failed);
            &&& next is Ok
            &&& total(world, walker, next->Ok_0, height) == total(
                world,
                walker,
                state,
                height,
            ).add(of_faults(walker.error_policy, failed))
            &&& next->Ok_0.pending == state.pending
            &&& next->Ok_0.cut_short == state.cut_short
        }),
{
    let next = after_faults(state, walker.error_policy, failed)->Ok_0;
    lemma_items_add(state.faults, failed);
    assert(total(world, walker, next, height) =~= total(world, walker, state, height).add(
        of_faults(walker.error_policy, failed),
    ));
}

proof fn lemma_total_of_job<C>(
    world: World<C>,
    walker: WalkerModel,
    state: StateModel<C>,
    job: Job<C>,
    height: int,
)
    ensures
        total(world, walker, with_job(state, job), height) == total(
            world,
            walker,
            state,
            height,
        ).add(of_job(world, walker, job, height)),
        in_bounds(world, walker, state, height) && job_ends_within(world, walker, job, height)
            ==> in_bounds(world, walker, with_job(state, job), height),
{
    let more = with_job(state, job);
    assert(more.pending.drop_last() =~= state.pending);
    assert(total(world, walker, more, height) =~= total(world, walker, state, height).add(
        of_job(world, walker, job, height),
    ));
}

proof fn lemma_total_of_entry<C>(
    world: World<C>,
    walker: WalkerModel,
    state: StateModel<C>,
    entry: Entry,
    height: int,
)
    ensures
        total(world, walker, after_verdict(state, entry, Verdict::Keep), height) == total(
            world,
            walker,
            state,
            height,
        ).add(one(Ok(entry))),
{
    let next = after_verdict(state, entry, Verdict::Keep);
    lemma_items_push(state.faults, state.found, arbitrary(), entry);
    assert(total(world, walker, next, height) =~= total(world, walker, state, height).add(
        one(Ok(entry)),
    ));
}

proof fn lemma_total_of_descent<C>(
    world: World<C>,
    walker: WalkerModel,
    state: StateModel<C>,
    frame: FrameModel<C>,
    entry: Option<Entry>,
    child: TaskModel<C>,
    height: int,
)
    requires
        in_bounds(world, walker, state, height),
        job_ends_within(world, walker, Job::Resume(frame), height),
        job_ends_within(world, walker, Job::Directory(child), height),
    ensures
        total(world, walker, after_descent(state, frame, entry, child), height) == total(
            world,
            walker,
            state,
            height,
        ).add(of_job(world, walker, Job::Resume(frame), height)).add(
            match entry {
                Some(entry) => one(Ok(entry)),
                None => nothing(),
            },
        ).add(of_job(world, walker, Job::Directory(child), height)),
        in_bounds(world, walker, after_descent(state, frame, entry, child), height),
{
    let first = with_job(state, Job::Resume(frame));
    lemma_total_of_job(world, walker, state, Job::Resume(frame), height);
    match entry {
        Some(entry) => {
            let second = with_job(first, Job::Emit(entry));
            lemma_total_of_job(world, walker, first, Job::Emit(entry), height);
            lemma_total_of_job(world, walker, second, Job::Directory(child), height);
        },
        None => {
            lemma_total_of_job(world, walker, first, Job::Directory(child), height);
            assert(total(world, walker, first, height) =~= total(
                world,
                walker,
                first,
                height,
            ).add(nothing()));
        },
    }
}

proof fn lemma_total_of_directory_step<C>(
    world: World<C>,
    walker: WalkerModel,
    state: StateModel<C>,
    task: TaskModel<C>,
    height: int,
)
    requires
        walker.error_policy != ErrorPolicy::Abort,
        in_bounds(world, walker, state, height),
        job_ends_within(world, walker, Job::Directory(task), height),
    ensures
        ({
            let next = directory_step(world, walker, state, task);
            &&& next is Ok
            &&& total(world, walker, next->Ok_0, height) == total(
                world,
                walker,
                state,
                height,
            ).add(of_job(world, walker, Job::Directory(task), height))
            &&& in_bounds(world, walker, next->Ok_0, height)
        }),
{
    let policy = walker.error_policy;
    let early = ignore_reports(task.errors);
    let levels = (height - task.depth) as nat;
    let whole = of_job(world, walker, Job::Directory(task), height);
    let before = total(world, walker, state, height);
    let is_root = task.depth == 0;
    lemma_total_of_faults(world, walker, state, early, height);
    let told = after_faults(state, policy, early)->Ok_0;
    let next = directory_step(world, walker, state, task)->Ok_0;
    match read_by(world, walker, reported(task)) {
        Read::Cycle => {
            assert(total(world, walker, next, height) =~= before.add(whole));
        },
        Read::Unidentified(failure) => {
            lemma_total_of_fault(
                world,
                walker,
                told,
                unidentified(walker, task, failure),
                is_root,
                height,
            );
            assert(total(world, walker, next, height) =~= before.add(whole));
        },
        Read::Unreadable(failure) => {
            lemma_total_of_fault(world, walker, told, unreadable(task, failure), is_root, height);
            assert(total(world, walker, next, height) =~= before.add(whole));
        },
        Read::Opened(frame, failed) => {
            assert(frame.at.depth == task.depth);
            lemma_total_of_faults(world, walker, told, failed, height);
            let after = after_faults(told, policy, failed)->Ok_0;
            lemma_total_of_job(world, walker, after, Job::Resume(frame), height);
            assert(next == with_job(after, Job::Resume(frame)));
            assert(whole == of_faults(policy, early).add(
                of_faults(policy, failed).add(of_rest(world, walker, frame, levels)),
            ));
            assert(total(world, walker, next, height) =~= before.add(whole));
        },
    }
}

proof fn lemma_total_of_entry_step<C>(
    world: World<C>,
    walker: WalkerModel,
    state: StateModel<C>,
    frame: FrameModel<C>,
    height: int,
)
    requires
        walker.error_policy != ErrorPolicy::Abort,
        in_bounds(world, walker, state, height),
        job_ends_within(world, walker, Job::Resume(frame), height),
        keeps_everything(world),
    ensures
        ({
            let next = entry_step(world, walker, state, frame);
            &&& next is Ok
            &&& total(world, walker, next->Ok_0, height) == total(
                world,
                walker,
                state,
                height,
            ).add(of_job(world, walker, Job::Resume(frame), height))
            &&& in_bounds(world, walker, next->Ok_0, height)
        }),
{
    let index = frame.next_entry;
    let levels = (height - frame.at.depth) as nat;
    let before = total(world, walker, state, height);
    let whole = of_job(world, walker, Job::Resume(frame), height);
    let next = entry_step(world, walker, state, frame)->Ok_0;
    if index >= frame.listed.len() {
        lemma_total_of_faults(world, walker, state, deferred_reports(frame.deferred), height);
    } else {
        let path = entry_path(world, frame, index);
        let action = action_at(world, walker, frame, index);
        let failure = failure_behind(world, path, action);
        let open = (world.open)(path);
        let identity = (world.identity)(frame.at.path);
        let child = child_of(frame.at, path, open);
        assert(child == child_at(world, frame, index));
        let left = advanced(frame);
        let aside = set_aside(left, identity);
        let rest = of_rest(world, walker, left, levels);
        let own = of_entry(world, walker, frame, index);
        assert(rest_ends_within(world, walker, left, levels));
        assert(job_ends_within(world, walker, Job::Resume(left), height));
        match identity {
            Some((device, inode)) => {
                let waits = DirectoryOpen::<C>::Suspended(device, inode);
                assert(aside == held(left, waits));
                lemma_how_a_directory_is_held_does_not_matter(world, walker, left, waits, levels);
            },
            None => {},
        }
        assert(job_ends_within(world, walker, Job::Resume(aside), height));
        assert(of_job(world, walker, Job::Resume(aside), height) == rest);
        if leads_on(action) {
            assert((height - child.depth) as nat == (levels - 1) as nat);
            assert(job_ends_within(world, walker, Job::Directory(child), height));
        }
        match action {
            EntryAction::Ask(_) | EntryAction::Skip => {
                lemma_total_of_job(world, walker, state, Job::Resume(left), height);
                assert(total(world, walker, next, height) =~= before.add(whole));
            },
            EntryAction::Emit(emitted) => {
                let entry = emitted_at(emitted, path, walker.roots[frame.at.root].path);
                let kept = after_verdict(state, entry, Verdict::Keep);
                assert((world.verdict)(entry) == Verdict::Keep);
                lemma_total_of_entry(world, walker, state, entry, height);
                lemma_total_of_job(world, walker, kept, Job::Resume(left), height);
                assert(next == with_job(kept, Job::Resume(left)));
                assert(total(world, walker, next, height) =~= before.add(whole));
            },
            EntryAction::Descend => {
                lemma_total_of_descent(world, walker, state, aside, None, child, height);
                assert(total(world, walker, next, height) =~= before.add(whole));
            },
            EntryAction::DescendAndEmit(emitted) => {
                let entry = emitted_at(emitted, path, walker.roots[frame.at.root].path);
                lemma_total_of_descent(world, walker, state, aside, Some(entry), child, height);
                assert(total(world, walker, next, height) =~= before.add(whole));
            },
            EntryAction::Failed { question, descend } => {
                let failed = fault(question_operation(question), path, failure->0);
                lemma_total_of_fault(world, walker, state, failed, false, height);
                let told = after_fault(state, walker.error_policy, failed, false)->Ok_0;
                if descend {
                    lemma_total_of_descent(world, walker, told, aside, None, child, height);
                } else {
                    lemma_total_of_job(world, walker, told, Job::Resume(left), height);
                }
                assert(total(world, walker, next, height) =~= before.add(whole));
            },
        }
    }
}

/// A step of a serial walk that keeps every entry moves what it has yet to say
/// into what it said, and neither adds to it nor loses any of it.
pub proof fn law_a_step_says_what_it_had_to_say<C>(
    world: World<C>,
    walker: WalkerModel,
    state: StateModel<C>,
    height: int,
)
    requires
        walker.error_policy != ErrorPolicy::Abort,
        state.pending.len() > 0,
        in_bounds(world, walker, state, height),
        keeps_everything(world),
    ensures
        ({
            let next = step(world, walker, state);
            &&& next is Ok
            &&& total(world, walker, next->Ok_0, height) == total(world, walker, state, height)
            &&& in_bounds(world, walker, next->Ok_0, height)
        }),
{
    let rest = StateModel { pending: state.pending.drop_last(), ..state };
    let last = state.pending.last();
    assert(job_ends_within(world, walker, state.pending[state.pending.len() - 1], height));
    assert(in_bounds(world, walker, rest, height)) by {
        assert forall|i: int| 0 <= i < rest.pending.len() implies job_ends_within(
            world,
            walker,
            #[trigger] rest.pending[i],
            height,
        ) by {
            assert(rest.pending[i] == state.pending[i]);
        }
    }
    assert(total(world, walker, state, height) =~= total(world, walker, rest, height).add(
        of_job(world, walker, last, height),
    ));
    match last {
        Job::Emit(entry) => {
            assert((world.verdict)(entry) == Verdict::Keep);
            lemma_total_of_entry(world, walker, rest, entry, height);
        },
        Job::Directory(task) => {
            lemma_total_of_directory_step(world, walker, rest, task, height);
        },
        Job::Resume(frame) => {
            lemma_how_a_directory_is_held_does_not_matter(
                world,
                walker,
                frame,
                DirectoryOpen::ByPath,
                (height - frame.at.depth) as nat,
            );
            assert(taken_up(frame) == held(frame, DirectoryOpen::ByPath));
            lemma_total_of_entry_step(world, walker, rest, taken_up(frame), height);
        },
    }
}

proof fn lemma_a_run_says_what_it_had_to_say<C>(
    world: World<C>,
    walker: WalkerModel,
    state: StateModel<C>,
    steps: nat,
    end: StateModel<C>,
    height: int,
)
    requires
        walker.error_policy != ErrorPolicy::Abort,
        in_bounds(world, walker, state, height),
        keeps_everything(world),
        runs_to(world, walker, state, steps, end),
    ensures
        total(world, walker, end, height) == total(world, walker, state, height),
    decreases steps,
{
    if steps > 0 {
        law_a_step_says_what_it_had_to_say(world, walker, state, height);
        let next = step(world, walker, state)->Ok_0;
        lemma_a_run_says_what_it_had_to_say(
            world,
            walker,
            next,
            (steps - 1) as nat,
            end,
            height,
        );
    }
}

/// What the stream says of a directory whose turn has come, and the stream
/// afterwards.
pub open spec fn prepare_step<C>(
    world: World<C>,
    walker: WalkerModel,
    stream: StreamModel<C>,
    task: TaskModel<C>,
) -> (Option<Fault>, StreamModel<C>) {
    match read_by(world, walker, reported(task)) {
        Read::Cycle => after_ignore_errors(
            stream,
            walker.error_policy,
            ignore_reports(task.errors),
        ),
        Read::Unidentified(failure) => after_giving_up(
            stream,
            walker.error_policy,
            ignore_reports(task.errors),
            unidentified(walker, task, failure),
            task.depth == 0,
        ),
        Read::Unreadable(failure) => after_failed_read(stream, walker, task, failure),
        Read::Opened(frame, failed) => after_preparing(stream, walker, task, frame, failed),
    }
}

/// What the stream says in one turn, and the stream afterwards.
pub open spec fn pulled<C>(world: World<C>, walker: WalkerModel, stream: StreamModel<C>) -> (
    Option<Result<Entry, Fault>>,
    StreamModel<C>,
) {
    match turned(stream, walker.error_policy, false) {
        (TurnModel::End, after) => (None, after),
        (TurnModel::Yield(failed), after) => (Some(Err(failed)), after),
        (TurnModel::Again, after) => (None, after),
        (TurnModel::Classify(index), after) => {
            let path = entry_path(world, after.frame, index);
            let action = action_at(world, walker, after.frame, index);
            after_entry(
                after,
                walker,
                path,
                action,
                failure_behind(world, path, action),
                (world.open)(path),
            )
        },
        (TurnModel::Prepare(task), after) => match prepare_step(world, walker, after, task) {
            (Some(failed), after) => (Some(Err(failed)), after),
            (None, after) => (None, after),
        },
    }
}

/// Whether a stream has come to its end.
pub open spec fn ended<C>(stream: StreamModel<C>, policy: ErrorPolicy) -> bool {
    turned(stream, policy, false).0 is End
}

/// Whether a stream comes to its end in this many turns and says these items on
/// the way.
pub open spec fn says<C>(
    world: World<C>,
    walker: WalkerModel,
    stream: StreamModel<C>,
    turns: nat,
    items: Seq<Result<Entry, Fault>>,
) -> bool
    decreases turns,
{
    if turns == 0 {
        ended(stream, walker.error_policy) && items.len() == 0
    } else {
        !ended(stream, walker.error_policy) && match pulled(world, walker, stream) {
            (Some(item), after) => items.len() > 0 && items[0] == item && says(
                world,
                walker,
                after,
                (turns - 1) as nat,
                items.drop_first(),
            ),
            (None, after) => says(world, walker, after, (turns - 1) as nat, items),
        }
    }
}

/// Directories that wait, as tasks.
pub open spec fn directories<C>(tasks: Seq<TaskModel<C>>) -> Seq<Job<C>> {
    Seq::new(tasks.len(), |i: int| Job::Directory(tasks[i]))
}

/// What a stream has yet to say.
pub open spec fn left_to_say<C>(
    world: World<C>,
    walker: WalkerModel,
    stream: StreamModel<C>,
    height: int,
) -> Multiset<Result<Entry, Fault>> {
    failed_items(stream.faults).to_multiset().add(
        of_job(world, walker, Job::Resume(stream.frame), height),
    ).add(of_jobs(world, walker, directories(stream.waiting), height))
}

/// Whether a stream goes on, and leads no deeper than `height` levels below its
/// roots.
pub open spec fn stream_in_bounds<C>(
    world: World<C>,
    walker: WalkerModel,
    stream: StreamModel<C>,
    height: int,
) -> bool {
    &&& !stream.stopped
    &&& !stream.cancelled
    &&& stream.frame.at.errors.len() == 0
    &&& job_ends_within(world, walker, Job::Resume(stream.frame), height)
    &&& forall|i: int|
        0 <= i < stream.waiting.len() ==> job_ends_within(
            world,
            walker,
            Job::Directory(#[trigger] stream.waiting[i]),
            height,
        )
}

/// What an item adds to what was said.
pub open spec fn of_item(item: Option<Result<Entry, Fault>>) -> Multiset<Result<Entry, Fault>> {
    match item {
        Some(item) => one(item),
        None => nothing(),
    }
}

/// Whether a turn moved one item from what a stream has yet to say into what it
/// said.
pub open spec fn accounts_for<C>(
    world: World<C>,
    walker: WalkerModel,
    before: StreamModel<C>,
    item: Option<Result<Entry, Fault>>,
    after: StreamModel<C>,
    height: int,
) -> bool {
    &&& left_to_say(world, walker, before, height) == of_item(item).add(
        left_to_say(world, walker, after, height),
    )
    &&& stream_in_bounds(world, walker, after, height)
}

pub(crate) proof fn lemma_no_items()
    ensures
        failed_items(Seq::empty()).to_multiset() == nothing(),
        found_items(Seq::empty()).to_multiset() == nothing(),
{
    broadcast use group_to_multiset_ensures;

    assert(failed_items(Seq::empty()) =~= Seq::<Result<Entry, Fault>>::empty());
    assert(found_items(Seq::empty()) =~= Seq::<Result<Entry, Fault>>::empty());
    assert(Seq::<Result<Entry, Fault>>::empty().to_multiset() =~= nothing());
}

proof fn lemma_last_item(faults: Seq<Fault>)
    requires
        faults.len() > 0,
    ensures
        failed_items(faults).to_multiset() == failed_items(faults.drop_last()).to_multiset().add(
            one(Err(faults.last())),
        ),
{
    assert(faults.drop_last().push(faults.last()) =~= faults);
    lemma_items_push(faults.drop_last(), Seq::empty(), faults.last(), arbitrary());
}

proof fn lemma_reversed_items(faults: Seq<Fault>)
    ensures
        failed_items(faults.reverse()).to_multiset() == failed_items(faults).to_multiset(),
    decreases faults.len(),
{
    if faults.len() == 0 {
        assert(faults.reverse() =~= faults);
    } else {
        let rest = faults.drop_last();
        let last = faults.last();
        lemma_reversed_items(rest);
        lemma_last_item(faults);
        assert(faults.reverse() =~= seq![last] + rest.reverse());
        lemma_items_add(seq![last], rest.reverse());
        lemma_no_items();
        lemma_items_push(Seq::empty(), Seq::empty(), last, arbitrary());
        assert(Seq::<Fault>::empty().push(last) =~= seq![last]);
        assert(failed_items(faults.reverse()).to_multiset() =~= failed_items(faults).to_multiset());
    }
}

proof fn lemma_waiting_one_more<C>(
    world: World<C>,
    walker: WalkerModel,
    stream: StreamModel<C>,
    task: TaskModel<C>,
    height: int,
)
    ensures
        left_to_say(world, walker, with_waiting(stream, task), height) == left_to_say(
            world,
            walker,
            stream,
            height,
        ).add(of_job(world, walker, Job::Directory(task), height)),
        stream_in_bounds(world, walker, stream, height) && job_ends_within(
            world,
            walker,
            Job::Directory(task),
            height,
        ) ==> stream_in_bounds(world, walker, with_waiting(stream, task), height),
{
    let more = with_waiting(stream, task);
    assert(directories(more.waiting) =~= directories(stream.waiting).push(Job::Directory(task)));
    assert(directories(more.waiting).drop_last() =~= directories(stream.waiting));
    assert(left_to_say(world, walker, more, height) =~= left_to_say(
        world,
        walker,
        stream,
        height,
    ).add(of_job(world, walker, Job::Directory(task), height)));
}

proof fn lemma_one_failure<C>(
    world: World<C>,
    walker: WalkerModel,
    stream: StreamModel<C>,
    failed: Fault,
    is_root: bool,
)
    requires
        walker.error_policy != ErrorPolicy::Abort,
    ensures
        ({
            let (says, after) = after_failure(stream, walker.error_policy, failed, is_root);
            &&& after == stream
            &&& of_fault(walker.error_policy, failed, is_root) == of_item(
                match says {
                    Some(failed) => Some(Err(failed)),
                    None => None,
                },
            )
        }),
{
}

proof fn lemma_a_turn_classifies<C>(
    world: World<C>,
    walker: WalkerModel,
    stream: StreamModel<C>,
    height: int,
)
    requires
        walker.error_policy != ErrorPolicy::Abort,
        stream_in_bounds(world, walker, stream, height),
        stream.faults.len() == 0,
        stream.frame.next_entry < stream.frame.listed.len(),
    ensures
        ({
            let (item, after) = pulled(world, walker, stream);
            accounts_for(world, walker, stream, item, after, height)
        }),
{
    let frame = stream.frame;
    let index = frame.next_entry;
    let left = advanced(frame);
    let moved = StreamModel { frame: left, ..stream };
    let path = entry_path(world, frame, index);
    let action = action_at(world, walker, frame, index);
    let failure = failure_behind(world, path, action);
    let child = child_at(world, frame, index);
    let levels = (height - frame.at.depth) as nat;
    let own = of_entry(world, walker, frame, index);
    assert(action_at(world, walker, left, index) == action);
    assert(entry_path(world, left, index) == path);
    assert(child_of(left.at, path, (world.open)(path)) == child);
    assert(rest_ends_within(world, walker, left, levels));
    assert(stream_in_bounds(world, walker, moved, height));
    let (item, after) = pulled(world, walker, stream);
    assert((item, after) == after_entry(
        moved,
        walker,
        path,
        action,
        failure,
        (world.open)(path),
    ));
    let below = if leads_on(action) {
        of_job(world, walker, Job::Directory(child), height)
    } else {
        nothing()
    };
    if leads_on(action) {
        assert((height - child.depth) as nat == (levels - 1) as nat);
        assert(job_ends_within(world, walker, Job::Directory(child), height));
        lemma_waiting_one_more(world, walker, moved, child, height);
    }
    assert(left_to_say(world, walker, stream, height) =~= own.add(below).add(
        left_to_say(world, walker, moved, height),
    )) by {
        assert(of_job(world, walker, Job::Resume(frame), height) =~= own.add(below).add(
            of_job(world, walker, Job::Resume(left), height),
        ));
    }
    match action {
        EntryAction::Failed { question, descend } => {
            let failed = fault(question_operation(question), path, failure->0);
            let queued = if descend {
                with_waiting(moved, child)
            } else {
                moved
            };
            lemma_one_failure(world, walker, queued, failed, false);
        },
        _ => {},
    }
    assert(left_to_say(world, walker, stream, height) =~= of_item(item).add(
        left_to_say(world, walker, after, height),
    ));
}

/// What is said of a directory, as an item.
pub open spec fn as_item(failed: Option<Fault>) -> Option<Result<Entry, Fault>> {
    match failed {
        Some(failed) => Some(Err(failed)),
        None => None,
    }
}

/// Whether a stream is between two directories.
pub open spec fn between_directories<C>(stream: StreamModel<C>) -> bool {
    &&& stream.faults.len() == 0
    &&& stream.frame.next_entry >= stream.frame.listed.len()
    &&& stream.frame.deferred.len() == 0
}

proof fn lemma_an_exhausted_frame<C>(
    world: World<C>,
    walker: WalkerModel,
    frame: FrameModel<C>,
    height: int,
)
    requires
        frame.next_entry >= frame.listed.len(),
        frame.deferred.len() == 0,
    ensures
        of_job(world, walker, Job::Resume(frame), height) == nothing(),
{
    lemma_no_items();
    assert(deferred_reports(frame.deferred) =~= Seq::empty());
}

/// Failures that wait are queued, and what is said is the first of them.
proof fn lemma_queued<C>(
    world: World<C>,
    walker: WalkerModel,
    stream: StreamModel<C>,
    errors: Seq<Fault>,
    height: int,
)
    requires
        walker.error_policy == ErrorPolicy::Collect,
        stream.faults.len() == 0,
    ensures
        ({
            let (failed, after) = after_ignore_errors(stream, walker.error_policy, errors);
            &&& left_to_say(world, walker, stream, height).add(
                of_faults(walker.error_policy, errors),
            ) == of_item(as_item(failed)).add(left_to_say(world, walker, after, height))
            &&& after == (StreamModel { faults: after.faults, ..stream })
        }),
{
    let (failed, after) = after_ignore_errors(stream, walker.error_policy, errors);
    let queue = stream.faults + errors.reverse();
    lemma_no_items();
    assert(stream.faults =~= Seq::empty());
    assert(queue =~= errors.reverse());
    lemma_reversed_items(errors);
    if queue.len() > 0 {
        lemma_last_item(queue);
    } else {
        assert(errors =~= Seq::empty());
    }
    assert(left_to_say(world, walker, stream, height).add(of_faults(walker.error_policy, errors))
        =~= of_item(as_item(failed)).add(left_to_say(world, walker, after, height)));
}

proof fn lemma_given_up<C>(
    world: World<C>,
    walker: WalkerModel,
    stream: StreamModel<C>,
    errors: Seq<Fault>,
    last: Fault,
    is_root: bool,
    height: int,
)
    requires
        walker.error_policy != ErrorPolicy::Abort,
        stream.faults.len() == 0,
    ensures
        ({
            let policy = walker.error_policy;
            let (failed, after) = after_giving_up(stream, policy, errors, last, is_root);
            &&& left_to_say(world, walker, stream, height).add(of_faults(policy, errors)).add(
                of_fault(policy, last, is_root),
            ) == of_item(as_item(failed)).add(left_to_say(world, walker, after, height))
            &&& after == (StreamModel { faults: after.faults, ..stream })
        }),
{
    let policy = walker.error_policy;
    let (failed, after) = after_giving_up(stream, policy, errors, last, is_root);
    if policy == ErrorPolicy::Collect {
        lemma_queued(world, walker, stream, errors.push(last), height);
        lemma_items_push(errors, Seq::empty(), last, arbitrary());
    } else {
        lemma_one_failure(world, walker, stream, last, is_root);
    }
    assert(left_to_say(world, walker, stream, height).add(of_faults(policy, errors)).add(
        of_fault(policy, last, is_root),
    ) =~= of_item(as_item(failed)).add(left_to_say(world, walker, after, height)));
}

proof fn lemma_a_directory_is_not_read<C>(
    world: World<C>,
    walker: WalkerModel,
    stream: StreamModel<C>,
    task: TaskModel<C>,
    height: int,
)
    requires
        walker.error_policy != ErrorPolicy::Abort,
        stream_in_bounds(world, walker, stream, height),
        between_directories(stream),
        !(read_by(world, walker, reported(task)) is Opened),
    ensures
        ({
            let (failed, after) = prepare_step(world, walker, stream, task);
            &&& left_to_say(world, walker, stream, height).add(
                of_job(world, walker, Job::Directory(task), height),
            ) == of_item(as_item(failed)).add(left_to_say(world, walker, after, height))
            &&& stream_in_bounds(world, walker, after, height)
        }),
{
    let policy = walker.error_policy;
    let is_root = task.depth == 0;
    let early = ignore_reports(task.errors);
    let whole = of_job(world, walker, Job::Directory(task), height);
    let left = left_to_say(world, walker, stream, height);
    lemma_an_exhausted_frame(world, walker, stream.frame, height);
    let (failed, after) = prepare_step(world, walker, stream, task);
    match read_by(world, walker, reported(task)) {
        Read::Cycle => {
            if policy == ErrorPolicy::Collect {
                lemma_queued(world, walker, stream, early, height);
            }
            assert(whole =~= of_faults(policy, early));
        },
        Read::Unidentified(failure) => {
            let last = unidentified(walker, task, failure);
            lemma_given_up(world, walker, stream, early, last, is_root, height);
            assert(left.add(whole) =~= left.add(of_faults(policy, early)).add(
                of_fault(policy, last, is_root),
            ));
        },
        Read::Unreadable(failure) => {
            let last = unreadable(task, failure);
            let cleared = StreamModel {
                frame: FrameModel {
                    listed: Seq::empty(),
                    deferred: Seq::empty(),
                    next_entry: 0,
                    ..stream.frame
                },
                ..stream
            };
            lemma_an_exhausted_frame(world, walker, cleared.frame, height);
            lemma_given_up(world, walker, cleared, early, last, is_root, height);
            assert(left_to_say(world, walker, cleared, height) == left);
            assert(left.add(whole) =~= left.add(of_faults(policy, early)).add(
                of_fault(policy, last, is_root),
            ));
        },
        Read::Opened(_, _) => {},
    }
    assert(left.add(whole) =~= of_item(as_item(failed)).add(
        left_to_say(world, walker, after, height),
    ));
}

proof fn lemma_a_directory_is_read<C>(
    world: World<C>,
    walker: WalkerModel,
    stream: StreamModel<C>,
    task: TaskModel<C>,
    height: int,
)
    requires
        walker.error_policy != ErrorPolicy::Abort,
        stream_in_bounds(world, walker, stream, height),
        between_directories(stream),
        job_ends_within(world, walker, Job::Directory(task), height),
        read_by(world, walker, reported(task)) is Opened,
    ensures
        ({
            let (failed, after) = prepare_step(world, walker, stream, task);
            &&& left_to_say(world, walker, stream, height).add(
                of_job(world, walker, Job::Directory(task), height),
            ) == of_item(as_item(failed)).add(left_to_say(world, walker, after, height))
            &&& stream_in_bounds(world, walker, after, height)
        }),
{
    let policy = walker.error_policy;
    let early = ignore_reports(task.errors);
    let whole = of_job(world, walker, Job::Directory(task), height);
    lemma_no_items();
    lemma_an_exhausted_frame(world, walker, stream.frame, height);
    match read_by(world, walker, reported(task)) {
        Read::Opened(frame, failed) => {
            assert(frame.at.errors =~= Seq::empty());
            assert(frame.at.depth == task.depth);
            let shown = FrameModel {
                at: TaskModel { errors: Seq::empty(), ..frame.at },
                ..frame
            };
            assert(shown == frame);
            let moved = StreamModel { frame, ..stream };
            let errors = early + failed;
            let rest = of_job(world, walker, Job::Resume(frame), height);
            lemma_items_add(early, failed);
            assert(whole =~= of_faults(policy, errors).add(rest));
            let (said_first, after) = after_ignore_errors(moved, policy, errors);
            assert(prepare_step(world, walker, stream, task) == (said_first, after));
            if policy == ErrorPolicy::Collect {
                lemma_queued(world, walker, moved, errors, height);
            }
            assert(left_to_say(world, walker, stream, height).add(whole) =~= of_item(
                as_item(said_first),
            ).add(left_to_say(world, walker, after, height)));
        },
        _ => {},
    }
}

proof fn lemma_a_turn_prepares<C>(
    world: World<C>,
    walker: WalkerModel,
    stream: StreamModel<C>,
    height: int,
)
    requires
        walker.error_policy != ErrorPolicy::Abort,
        stream_in_bounds(world, walker, stream, height),
        between_directories(stream),
        stream.waiting.len() > 0,
    ensures
        ({
            let (item, after) = pulled(world, walker, stream);
            accounts_for(world, walker, stream, item, after, height)
        }),
{
    let task = stream.waiting.last();
    let moved = StreamModel { waiting: stream.waiting.drop_last(), ..stream };
    assert(stream.waiting[stream.waiting.len() - 1] == task);
    assert(with_waiting(moved, task).waiting =~= stream.waiting);
    lemma_waiting_one_more(world, walker, moved, task, height);
    assert(stream_in_bounds(world, walker, moved, height)) by {
        assert forall|i: int| 0 <= i < moved.waiting.len() implies job_ends_within(
            world,
            walker,
            Job::Directory(#[trigger] moved.waiting[i]),
            height,
        ) by {
            assert(moved.waiting[i] == stream.waiting[i]);
        }
    }
    let (failed, after) = prepare_step(world, walker, moved, task);
    if read_by(world, walker, reported(task)) is Opened {
        lemma_a_directory_is_read(world, walker, moved, task, height);
    } else {
        lemma_a_directory_is_not_read(world, walker, moved, task, height);
    }
    assert(pulled(world, walker, stream) == (as_item(failed), after));
    assert(left_to_say(world, walker, stream, height) =~= of_item(as_item(failed)).add(
        left_to_say(world, walker, after, height),
    ));
}

/// A turn of a stream moves one item at most from what it has yet to say into
/// what it said, and neither adds to the rest nor loses any of it.
pub proof fn law_a_turn_says_what_it_had_to_say<C>(
    world: World<C>,
    walker: WalkerModel,
    stream: StreamModel<C>,
    height: int,
)
    requires
        walker.error_policy != ErrorPolicy::Abort,
        stream_in_bounds(world, walker, stream, height),
        !ended(stream, walker.error_policy),
    ensures
        ({
            let (item, after) = pulled(world, walker, stream);
            accounts_for(world, walker, stream, item, after, height)
        }),
{
    let policy = walker.error_policy;
    let frame = stream.frame;
    let (item, after) = pulled(world, walker, stream);
    if stream.faults.len() > 0 {
        lemma_last_item(stream.faults);
        assert(left_to_say(world, walker, stream, height) =~= of_item(item).add(
            left_to_say(world, walker, after, height),
        ));
    } else if frame.next_entry < frame.listed.len() {
        lemma_a_turn_classifies(world, walker, stream, height);
    } else if frame.deferred.len() > 0 {
        let failed = deferred_report(frame.deferred[0]);
        let rest = frame.deferred.drop_first();
        let taken = StreamModel { frame: FrameModel { deferred: rest, ..frame }, ..stream };
        lemma_one_failure(world, walker, taken, failed, false);
        assert(deferred_reports(frame.deferred) =~= seq![failed] + deferred_reports(rest));
        lemma_items_add(seq![failed], deferred_reports(rest));
        lemma_no_items();
        lemma_items_push(Seq::empty(), Seq::empty(), failed, arbitrary());
        assert(Seq::<Fault>::empty().push(failed) =~= seq![failed]);
        assert(of_job(world, walker, Job::Resume(frame), height) =~= of_fault(
            policy,
            failed,
            false,
        ).add(of_job(world, walker, Job::Resume(taken.frame), height)));
        assert(left_to_say(world, walker, stream, height) =~= of_item(item).add(
            left_to_say(world, walker, after, height),
        ));
    } else {
        lemma_a_turn_prepares(world, walker, stream, height);
    }
}

pub(crate) proof fn lemma_a_stream_says_what_it_had_to_say<C>(
    world: World<C>,
    walker: WalkerModel,
    stream: StreamModel<C>,
    turns: nat,
    items: Seq<Result<Entry, Fault>>,
    height: int,
)
    requires
        walker.error_policy != ErrorPolicy::Abort,
        stream_in_bounds(world, walker, stream, height),
        says(world, walker, stream, turns, items),
    ensures
        items.to_multiset() == left_to_say(world, walker, stream, height),
    decreases turns,
{
    broadcast use group_to_multiset_ensures;

    if turns == 0 {
        lemma_no_items();
        assert(items =~= Seq::empty());
        assert(stream.faults =~= Seq::empty());
        assert(deferred_reports(stream.frame.deferred) =~= Seq::empty());
        assert(of_job(world, walker, Job::Resume(stream.frame), height) =~= nothing());
        assert(items.to_multiset() =~= left_to_say(world, walker, stream, height));
    } else {
        law_a_turn_says_what_it_had_to_say(world, walker, stream, height);
        let (item, after) = pulled(world, walker, stream);
        match item {
            Some(item) => {
                let rest = items.drop_first();
                lemma_a_stream_says_what_it_had_to_say(
                    world,
                    walker,
                    after,
                    (turns - 1) as nat,
                    rest,
                    height,
                );
                let first = Seq::empty().push(item);
                assert(items =~= first + rest);
                vstd::seq_lib::lemma_multiset_commutative(first, rest);
                assert(first.to_multiset() =~= one(item));
                assert(items.to_multiset() =~= left_to_say(world, walker, stream, height));
            },
            None => {
                lemma_a_stream_says_what_it_had_to_say(
                    world,
                    walker,
                    after,
                    (turns - 1) as nat,
                    items,
                    height,
                );
                assert(items.to_multiset() =~= left_to_say(world, walker, stream, height));
            },
        }
    }
}

/// Before they start, both frontends have the same to say.
pub(crate) proof fn lemma_fresh_alike<C>(
    world: World<C>,
    walker: WalkerModel,
    roots: Seq<TaskModel<C>>,
    stream: StreamModel<C>,
    height: int,
)
    requires
        is_fresh_stream(stream, roots),
    ensures
        left_to_say(world, walker, stream, height) == total(
            world,
            walker,
            fresh_state(root_jobs(roots)),
            height,
        ),
{
    let start = fresh_state(root_jobs(roots));
    lemma_no_items();
    assert(directories(stream.waiting) =~= start.pending);
    assert(deferred_reports(stream.frame.deferred) =~= Seq::empty());
    assert(of_job(world, walker, Job::Resume(stream.frame), height) =~= nothing());
    assert(left_to_say(world, walker, stream, height) =~= of_jobs(
        world,
        walker,
        start.pending,
        height,
    ));
    assert(total(world, walker, start, height) =~= of_jobs(world, walker, start.pending, height));
}

/// Collecting and streaming agree: on a finite tree, under a policy that lets a
/// walk go on, the stream says exactly the entries that the serial walk finds
/// and the failures that it keeps, each as often, in an order of its own.
pub proof fn law_the_frontends_say_the_same<C>(
    world: World<C>,
    walker: WalkerModel,
    roots: Seq<TaskModel<C>>,
    height: nat,
    steps: nat,
    end: StateModel<C>,
    stream: StreamModel<C>,
    turns: nat,
    items: Seq<Result<Entry, Fault>>,
)
    requires
        walker.error_policy != ErrorPolicy::Abort,
        keeps_everything(world),
        forall|i: int|
            #![trigger roots[i]]
            0 <= i < roots.len() ==> roots[i].depth == 0 && ends_within(
                world,
                walker,
                roots[i],
                height,
            ),
        runs_to(world, walker, fresh_state(root_jobs(roots)), steps, end),
        finished(end),
        is_fresh_stream(stream, roots),
        says(world, walker, stream, turns, items),
    ensures
        items.to_multiset() == found_items(end.found).to_multiset().add(
            failed_items(end.faults).to_multiset(),
        ),
{
    let start = fresh_state(root_jobs(roots));
    let bound = height as int;
    lemma_no_items();
    assert(in_bounds(world, walker, start, bound)) by {
        assert forall|i: int| 0 <= i < start.pending.len() implies job_ends_within(
            world,
            walker,
            #[trigger] start.pending[i],
            bound,
        ) by {
            let task = roots[roots.len() - 1 - i];
            assert(start.pending[i] == Job::Directory(task));
        }
    }
    lemma_a_run_says_what_it_had_to_say(world, walker, start, steps, end, bound);
    assert(stream_in_bounds(world, walker, stream, bound)) by {
        assert forall|i: int| 0 <= i < stream.waiting.len() implies job_ends_within(
            world,
            walker,
            Job::Directory(#[trigger] stream.waiting[i]),
            bound,
        ) by {
            assert(stream.waiting[i] == roots[roots.len() - 1 - i]);
        }
    }
    lemma_a_stream_says_what_it_had_to_say(world, walker, stream, turns, items, bound);
    lemma_fresh_alike(world, walker, roots, stream, bound);
    assert(total(world, walker, end, bound) =~= said(end));
}

} // verus!
