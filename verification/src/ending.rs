//! Walks come to an end.
//!
//! A walk of a tree that ends somewhere takes a number of steps that can be
//! told beforehand. What ends a tree is a depth limit or, where links are
//! followed, that no directory is entered below itself.
use vstd::prelude::*;

use crate::agreement::{
    ended, ends_within, held, job_ends_within, leads_on, prepare_step, pulled, rest_ends_within,
};
use crate::classify::{law_the_depth_limit_is_kept, EntryAction};
use crate::options::Fault;
use crate::runs::{
    action_at, advanced, answered, candidate, child_at, entry_path, entry_step, read_by, step, Read,
    World,
};
use crate::stream::{turned, with_waiting, StreamModel, TurnModel};
use crate::walk::{
    child_of, distinct, emitted_at, ignore_reports, law_no_directory_is_its_own_ancestor, reported,
    set_aside, taken_up, DirectoryOpen, FrameModel, Job, Key, StateModel, TaskModel,
};
use crate::walker::WalkerModel;

verus! {

proof fn lemma_limited_directory<C>(
    world: World<C>,
    walker: WalkerModel,
    task: TaskModel<C>,
    limit: usize,
    height: nat,
)
    requires
        walker.options.max_depth == Some(limit),
        task.depth + height >= limit,
    ensures
        ends_within(world, walker, task, height),
    decreases height, 1nat, 0int,
{
    if let Read::Opened(frame, _) = read_by(world, walker, reported(task)) {
        lemma_limited_rest(world, walker, frame, limit, height);
    }
}

proof fn lemma_limited_rest<C>(
    world: World<C>,
    walker: WalkerModel,
    frame: FrameModel<C>,
    limit: usize,
    height: nat,
)
    requires
        walker.options.max_depth == Some(limit),
        frame.at.depth + height >= limit,
    ensures
        rest_ends_within(world, walker, frame, height),
    decreases height, 0nat, frame.listed.len() - frame.next_entry,
{
    let index = frame.next_entry;
    if index < frame.listed.len() {
        let path = entry_path(world, frame, index);
        law_the_depth_limit_is_kept(
            walker,
            candidate(world, frame, index),
            answered((world.target)(path)),
            answered((world.own)(path)),
            limit,
        );
        if leads_on(action_at(world, walker, frame, index)) {
            let child = child_at(world, frame, index);
            lemma_limited_directory(world, walker, child, limit, (height - 1) as nat);
        }
        lemma_limited_rest(world, walker, advanced(frame), limit, height);
    }
}

/// With a depth limit a walk goes no deeper than the limit, whatever the
/// filesystem is like.
pub proof fn law_a_depth_limit_ends_a_tree<C>(
    world: World<C>,
    walker: WalkerModel,
    root: TaskModel<C>,
    limit: usize,
)
    requires
        walker.options.max_depth == Some(limit),
        root.depth == 0,
    ensures
        ends_within(world, walker, root, limit as nat),
{
    lemma_limited_directory(world, walker, root, limit, limit as nat);
}

/// Whether every directory that can be identified is one of `places`.
pub open spec fn all_places<C>(world: World<C>, places: Set<Key>) -> bool {
    forall|path: Seq<u8>|
        match #[trigger] (world.key)(path) {
            Ok(key) => places.contains(key),
            Err(_) => true,
        }
}

proof fn lemma_ancestors_fit(keys: Seq<Key>, places: Set<Key>)
    requires
        distinct(keys),
        places.finite(),
        forall|i: int| 0 <= i < keys.len() ==> places.contains(#[trigger] keys[i]),
    ensures
        keys.len() <= places.len(),
{
    assert(keys.no_duplicates()) by {
        assert forall|i: int, j: int|
            0 <= i < keys.len() && 0 <= j < keys.len() && i != j implies keys[i] != keys[j] by {
            if i < j {
                assert(keys[i] != keys[j]);
            } else {
                assert(keys[j] != keys[i]);
            }
        }
    }
    keys.unique_seq_to_set();
    vstd::set_lib::lemma_len_subset(keys.to_set(), places);
}

proof fn lemma_followed_directory<C>(
    world: World<C>,
    walker: WalkerModel,
    task: TaskModel<C>,
    places: Set<Key>,
    height: nat,
)
    requires
        walker.options.follow_symlinks,
        places.finite(),
        all_places(world, places),
        distinct(task.ancestors),
        forall|i: int| 0 <= i < task.ancestors.len() ==> places.contains(#[trigger] task.ancestors[i]),
        task.ancestors.len() + height >= places.len(),
    ensures
        ends_within(world, walker, task, height),
    decreases height, 1nat, 0int,
{
    if let Read::Opened(frame, _) = read_by(world, walker, reported(task)) {
        let key = (world.key)(task.path)->Ok_0;
        assert(frame.at.ancestors == seq![key] + task.ancestors);
        law_no_directory_is_its_own_ancestor(task.ancestors, key);
        lemma_followed_rest(world, walker, frame, places, height);
    }
}

proof fn lemma_followed_rest<C>(
    world: World<C>,
    walker: WalkerModel,
    frame: FrameModel<C>,
    places: Set<Key>,
    height: nat,
)
    requires
        walker.options.follow_symlinks,
        places.finite(),
        all_places(world, places),
        distinct(frame.at.ancestors),
        forall|i: int|
            0 <= i < frame.at.ancestors.len() ==> places.contains(#[trigger] frame.at.ancestors[i]),
        frame.at.ancestors.len() + height > places.len(),
    ensures
        rest_ends_within(world, walker, frame, height),
    decreases height, 0nat, frame.listed.len() - frame.next_entry,
{
    let index = frame.next_entry;
    if index < frame.listed.len() {
        lemma_ancestors_fit(frame.at.ancestors, places);
        if leads_on(action_at(world, walker, frame, index)) {
            let child = child_at(world, frame, index);
            lemma_followed_directory(world, walker, child, places, (height - 1) as nat);
        }
        lemma_followed_rest(world, walker, advanced(frame), places, height);
    }
}

/// Where links are followed, the cycle guard ends a walk: it goes no deeper than
/// there are directories, however links lead round in circles.
pub proof fn law_the_cycle_guard_ends_a_tree<C>(
    world: World<C>,
    walker: WalkerModel,
    root: TaskModel<C>,
    places: Set<Key>,
)
    requires
        walker.options.follow_symlinks,
        places.finite(),
        all_places(world, places),
        root.ancestors.len() == 0,
    ensures
        ends_within(world, walker, root, places.len()),
{
    lemma_followed_directory(world, walker, root, places, places.len());
}

/// How many steps a directory and everything in it takes.
pub open spec fn effort_of_directory<C>(
    world: World<C>,
    walker: WalkerModel,
    task: TaskModel<C>,
    height: nat,
) -> nat
    decreases height, 1nat, 0int,
{
    1 + match read_by(world, walker, reported(task)) {
        Read::Opened(frame, _) => effort_of_rest(world, walker, frame, height),
        _ => 0,
    }
}

/// How many steps the entries of a directory that are left take.
pub open spec fn effort_of_rest<C>(
    world: World<C>,
    walker: WalkerModel,
    frame: FrameModel<C>,
    height: nat,
) -> nat
    decreases height, 0nat, frame.listed.len() - frame.next_entry,
{
    let index = frame.next_entry;
    if index >= frame.listed.len() {
        1
    } else {
        let action = action_at(world, walker, frame, index);
        let below = if leads_on(action) && height > 0 {
            effort_of_directory(
                world,
                walker,
                child_at(world, frame, index),
                (height - 1) as nat,
            )
        } else {
            0
        };
        let recorded: nat = if action is DescendAndEmit {
            1
        } else {
            0
        };
        1 + below + recorded + effort_of_rest(world, walker, advanced(frame), height)
    }
}

/// How many steps a task of the serial walk takes.
pub open spec fn effort_of_job<C>(
    world: World<C>,
    walker: WalkerModel,
    job: Job<C>,
    height: int,
) -> nat {
    match job {
        Job::Directory(task) => effort_of_directory(
            world,
            walker,
            task,
            (height - task.depth) as nat,
        ),
        Job::Resume(frame) => effort_of_rest(world, walker, frame, (height - frame.at.depth) as nat),
        Job::Emit(_) => 1,
    }
}

/// How many steps tasks of the serial walk take together.
pub open spec fn effort_of_jobs<C>(
    world: World<C>,
    walker: WalkerModel,
    jobs: Seq<Job<C>>,
    height: int,
) -> nat
    decreases jobs.len(),
{
    if jobs.len() == 0 {
        0
    } else {
        effort_of_jobs(world, walker, jobs.drop_last(), height) + effort_of_job(
            world,
            walker,
            jobs.last(),
            height,
        )
    }
}

/// Whether tasks lead no deeper than `height` levels below their roots.
pub open spec fn jobs_end_within<C>(
    world: World<C>,
    walker: WalkerModel,
    jobs: Seq<Job<C>>,
    height: int,
) -> bool {
    forall|i: int|
        0 <= i < jobs.len() ==> job_ends_within(world, walker, #[trigger] jobs[i], height)
}

/// Whether a serial walk comes to its end, or fails, within this many steps.
pub open spec fn comes_to_an_end<C>(
    world: World<C>,
    walker: WalkerModel,
    state: StateModel<C>,
    steps: nat,
) -> bool
    decreases steps,
{
    state.pending.len() == 0 || steps > 0 && match step(world, walker, state) {
        Ok(next) => comes_to_an_end(world, walker, next, (steps - 1) as nat),
        Err(_) => true,
    }
}

proof fn lemma_held_alike<C>(
    world: World<C>,
    walker: WalkerModel,
    frame: FrameModel<C>,
    open: DirectoryOpen<C>,
    height: nat,
)
    ensures
        effort_of_rest(world, walker, held(frame, open), height) == effort_of_rest(
            world,
            walker,
            frame,
            height,
        ),
        rest_ends_within(world, walker, held(frame, open), height) == rest_ends_within(
            world,
            walker,
            frame,
            height,
        ),
    decreases frame.listed.len() - frame.next_entry,
{
    let index = frame.next_entry;
    if index < frame.listed.len() {
        let other = held(frame, open);
        lemma_held_alike(world, walker, advanced(frame), open, height);
        assert(advanced(other) == held(advanced(frame), open));
        assert(child_at(world, other, index) == child_at(world, frame, index));
        assert(action_at(world, walker, other, index) == action_at(world, walker, frame, index));
    }
}

proof fn lemma_one_more_job<C>(
    world: World<C>,
    walker: WalkerModel,
    jobs: Seq<Job<C>>,
    job: Job<C>,
    height: int,
)
    ensures
        effort_of_jobs(world, walker, jobs.push(job), height) == effort_of_jobs(
            world,
            walker,
            jobs,
            height,
        ) + effort_of_job(world, walker, job, height),
        jobs_end_within(world, walker, jobs, height) && job_ends_within(world, walker, job, height)
            ==> jobs_end_within(world, walker, jobs.push(job), height),
{
    assert(jobs.push(job).drop_last() =~= jobs);
}

proof fn lemma_entry_effort<C>(
    world: World<C>,
    walker: WalkerModel,
    state: StateModel<C>,
    frame: FrameModel<C>,
    height: int,
)
    requires
        jobs_end_within(world, walker, state.pending, height),
        job_ends_within(world, walker, Job::Resume(frame), height),
    ensures
        match entry_step(world, walker, state, frame) {
            Ok(next) => {
                &&& jobs_end_within(world, walker, next.pending, height)
                &&& effort_of_jobs(world, walker, next.pending, height) < effort_of_jobs(
                    world,
                    walker,
                    state.pending,
                    height,
                ) + effort_of_job(world, walker, Job::Resume(frame), height)
            },
            Err(_) => true,
        },
{
    let index = frame.next_entry;
    if index < frame.listed.len() && !state.cut_short {
        let path = entry_path(world, frame, index);
        let action = action_at(world, walker, frame, index);
        let identity = (world.identity)(frame.at.path);
        let left = advanced(frame);
        let aside = set_aside(left, identity);
        let child = child_at(world, frame, index);
        let bound = (height - frame.at.depth) as nat;
        assert(child == child_of(left.at, path, (world.open)(path)));
        assert(aside == held(left, aside.at.open));
        lemma_held_alike(world, walker, left, aside.at.open, bound);
        lemma_one_more_job(world, walker, state.pending, Job::Resume(left), height);
        lemma_one_more_job(world, walker, state.pending, Job::Resume(aside), height);
        let waiting = state.pending.push(Job::Resume(aside));
        lemma_one_more_job(world, walker, waiting, Job::Directory(child), height);
        if let EntryAction::DescendAndEmit(emitted) = action {
            let entry = emitted_at(emitted, path, walker.roots[frame.at.root].path);
            let recorded = waiting.push(Job::Emit(entry));
            lemma_one_more_job(world, walker, waiting, Job::Emit(entry), height);
            lemma_one_more_job(world, walker, recorded, Job::Directory(child), height);
        }
        if leads_on(action) {
            assert(job_ends_within(world, walker, Job::Directory(child), height));
        }
    }
}

proof fn lemma_step_effort<C>(
    world: World<C>,
    walker: WalkerModel,
    state: StateModel<C>,
    height: int,
)
    requires
        state.pending.len() > 0,
        jobs_end_within(world, walker, state.pending, height),
    ensures
        match step(world, walker, state) {
            Ok(next) => {
                &&& jobs_end_within(world, walker, next.pending, height)
                &&& effort_of_jobs(world, walker, next.pending, height) < effort_of_jobs(
                    world,
                    walker,
                    state.pending,
                    height,
                )
            },
            Err(_) => true,
        },
{
    let rest = StateModel { pending: state.pending.drop_last(), ..state };
    let last = state.pending.last();
    assert(job_ends_within(world, walker, state.pending[state.pending.len() - 1], height));
    assert(jobs_end_within(world, walker, rest.pending, height)) by {
        assert forall|i: int| 0 <= i < rest.pending.len() implies job_ends_within(
            world,
            walker,
            #[trigger] rest.pending[i],
            height,
        ) by {
            assert(rest.pending[i] == state.pending[i]);
        }
    }
    match last {
        Job::Emit(_) => {},
        Job::Directory(task) => {
            if let Read::Opened(frame, _) = read_by(world, walker, reported(task)) {
                lemma_one_more_job(world, walker, rest.pending, Job::Resume(frame), height);
            }
        },
        Job::Resume(frame) => {
            let bound = (height - frame.at.depth) as nat;
            assert(taken_up(frame) == held(frame, DirectoryOpen::ByPath));
            lemma_held_alike(world, walker, frame, DirectoryOpen::ByPath, bound);
            lemma_entry_effort(world, walker, rest, taken_up(frame), height);
        },
    }
}

/// A serial walk of a finite tree comes to its end, under every policy and with
/// every visitor, within the number of steps that the tree takes.
pub proof fn law_a_walk_of_a_finite_tree_ends<C>(
    world: World<C>,
    walker: WalkerModel,
    state: StateModel<C>,
    height: int,
)
    requires
        jobs_end_within(world, walker, state.pending, height),
    ensures
        comes_to_an_end(
            world,
            walker,
            state,
            effort_of_jobs(world, walker, state.pending, height),
        ),
{
    lemma_ends(
        world,
        walker,
        state,
        height,
        effort_of_jobs(world, walker, state.pending, height),
    );
}

proof fn lemma_ends<C>(
    world: World<C>,
    walker: WalkerModel,
    state: StateModel<C>,
    height: int,
    steps: nat,
)
    requires
        jobs_end_within(world, walker, state.pending, height),
        effort_of_jobs(world, walker, state.pending, height) <= steps,
    ensures
        comes_to_an_end(world, walker, state, steps),
    decreases steps,
{
    if state.pending.len() > 0 {
        lemma_step_effort(world, walker, state, height);
        assert(effort_of_job(world, walker, state.pending.last(), height) > 0) by {
            reveal_with_fuel(effort_of_rest, 2);
        }
        if let Ok(next) = step(world, walker, state) {
            lemma_ends(world, walker, next, height, (steps - 1) as nat);
        }
    }
}

/// How many turns a directory and everything in it takes.
pub open spec fn turns_of_directory<C>(
    world: World<C>,
    walker: WalkerModel,
    task: TaskModel<C>,
    height: nat,
) -> nat
    decreases height, 1nat, 0int,
{
    1 + task.errors.len() + match read_by(world, walker, reported(task)) {
        Read::Opened(frame, failed) => failed.len() + turns_of_rest(world, walker, frame, height),
        _ => 0,
    }
}

/// How many turns the entries of a directory that are left take, with the
/// failures that waited for them.
pub open spec fn turns_of_rest<C>(
    world: World<C>,
    walker: WalkerModel,
    frame: FrameModel<C>,
    height: nat,
) -> nat
    decreases height, 0nat, frame.listed.len() - frame.next_entry,
{
    let index = frame.next_entry;
    if index >= frame.listed.len() {
        frame.deferred.len()
    } else {
        let below = if leads_on(action_at(world, walker, frame, index)) && height > 0 {
            turns_of_directory(
                world,
                walker,
                child_at(world, frame, index),
                (height - 1) as nat,
            )
        } else {
            0
        };
        1 + below + turns_of_rest(world, walker, advanced(frame), height)
    }
}

/// How many turns directories that wait take together.
pub open spec fn turns_of_waiting<C>(
    world: World<C>,
    walker: WalkerModel,
    waiting: Seq<TaskModel<C>>,
    height: int,
) -> nat
    decreases waiting.len(),
{
    if waiting.len() == 0 {
        0
    } else {
        turns_of_waiting(world, walker, waiting.drop_last(), height) + turns_of_directory(
            world,
            walker,
            waiting.last(),
            (height - waiting.last().depth) as nat,
        )
    }
}

/// How many turns a stream takes.
pub open spec fn turns_left<C>(
    world: World<C>,
    walker: WalkerModel,
    stream: StreamModel<C>,
    height: int,
) -> nat {
    stream.faults.len() + turns_of_rest(
        world,
        walker,
        stream.frame,
        (height - stream.frame.at.depth) as nat,
    ) + turns_of_waiting(world, walker, stream.waiting, height)
}

/// Whether a stream leads no deeper than `height` levels below its roots.
pub open spec fn stream_ends_within<C>(
    world: World<C>,
    walker: WalkerModel,
    stream: StreamModel<C>,
    height: int,
) -> bool {
    &&& job_ends_within(world, walker, Job::Resume(stream.frame), height)
    &&& forall|i: int|
        0 <= i < stream.waiting.len() ==> job_ends_within(
            world,
            walker,
            Job::Directory(#[trigger] stream.waiting[i]),
            height,
        )
}

/// Whether a stream comes to its end within this many turns.
pub open spec fn runs_dry<C>(
    world: World<C>,
    walker: WalkerModel,
    stream: StreamModel<C>,
    turns: nat,
) -> bool
    decreases turns,
{
    ended(stream, walker.error_policy) || turns > 0 && runs_dry(
        world,
        walker,
        pulled(world, walker, stream).1,
        (turns - 1) as nat,
    )
}

proof fn lemma_one_more_waits<C>(
    world: World<C>,
    walker: WalkerModel,
    stream: StreamModel<C>,
    task: TaskModel<C>,
    height: int,
)
    ensures
        turns_left(world, walker, with_waiting(stream, task), height) == turns_left(
            world,
            walker,
            stream,
            height,
        ) + turns_of_directory(world, walker, task, (height - task.depth) as nat),
        stream_ends_within(world, walker, stream, height) && job_ends_within(
            world,
            walker,
            Job::Directory(task),
            height,
        ) ==> stream_ends_within(world, walker, with_waiting(stream, task), height),
{
    assert(stream.waiting.push(task).drop_last() =~= stream.waiting);
}

proof fn lemma_prepared_turns<C>(
    world: World<C>,
    walker: WalkerModel,
    stream: StreamModel<C>,
    task: TaskModel<C>,
    height: int,
)
    requires
        stream.faults.len() == 0,
        stream.frame.next_entry >= stream.frame.listed.len(),
        stream.frame.deferred.len() == 0,
        stream_ends_within(world, walker, stream, height),
        job_ends_within(world, walker, Job::Directory(task), height),
    ensures
        ({
            let after = prepare_step(world, walker, stream, task).1;
            after.stopped || stream_ends_within(world, walker, after, height) && turns_left(
                world,
                walker,
                after,
                height,
            ) < turns_left(world, walker, stream, height) + turns_of_directory(
                world,
                walker,
                task,
                (height - task.depth) as nat,
            )
        }),
{
    let after = prepare_step(world, walker, stream, task).1;
    match read_by(world, walker, reported(task)) {
        Read::Opened(frame, failed) => {
            assert(frame.at.errors =~= Seq::empty());
            assert(frame.at == (TaskModel { errors: Seq::empty(), ..frame.at }));
            let reports = ignore_reports(task.errors) + failed;
            let queue = Seq::<Fault>::empty() + reports.reverse();
            assert(queue.len() == task.errors.len() + failed.len());
            assert(stream.faults =~= Seq::<Fault>::empty());
            assert(after.frame == frame);
            assert(after.faults.len() <= task.errors.len() + failed.len());
        },
        _ => {
            assert(ignore_reports(task.errors).len() == task.errors.len());
            assert(after.faults.len() <= task.errors.len());
        },
    }
}

proof fn lemma_turn_effort<C>(
    world: World<C>,
    walker: WalkerModel,
    stream: StreamModel<C>,
    height: int,
)
    requires
        stream_ends_within(world, walker, stream, height),
        !ended(stream, walker.error_policy),
    ensures
        ({
            let after = pulled(world, walker, stream).1;
            after.stopped || stream_ends_within(world, walker, after, height) && turns_left(
                world,
                walker,
                after,
                height,
            ) < turns_left(world, walker, stream, height)
        }),
{
    let frame = stream.frame;
    let index = frame.next_entry;
    let (turn, after) = turned(stream, walker.error_policy, false);
    match turn {
        TurnModel::Classify(_) => {
            let path = entry_path(world, frame, index);
            let action = action_at(world, walker, frame, index);
            let child = child_at(world, frame, index);
            assert(after.frame == advanced(frame));
            assert(entry_path(world, after.frame, index) == path);
            assert(action_at(world, walker, after.frame, index) == action);
            assert(child == child_of(after.frame.at, path, (world.open)(path)));
            lemma_one_more_waits(world, walker, after, child, height);
            if leads_on(action) {
                assert(job_ends_within(world, walker, Job::Directory(child), height));
            }
        },
        TurnModel::Prepare(task) => {
            let moved = StreamModel { waiting: stream.waiting.drop_last(), ..stream };
            assert(after == moved);
            assert(stream.waiting[stream.waiting.len() - 1] == task);
            assert(stream_ends_within(world, walker, moved, height)) by {
                assert forall|i: int| 0 <= i < moved.waiting.len() implies job_ends_within(
                    world,
                    walker,
                    Job::Directory(#[trigger] moved.waiting[i]),
                    height,
                ) by {
                    assert(moved.waiting[i] == stream.waiting[i]);
                }
            }
            lemma_prepared_turns(world, walker, moved, task, height);
        },
        _ => {},
    }
}

proof fn lemma_runs_dry<C>(
    world: World<C>,
    walker: WalkerModel,
    stream: StreamModel<C>,
    height: int,
    turns: nat,
)
    requires
        stream_ends_within(world, walker, stream, height),
        turns_left(world, walker, stream, height) <= turns,
    ensures
        runs_dry(world, walker, stream, turns),
    decreases turns,
{
    if !ended(stream, walker.error_policy) {
        lemma_turn_effort(world, walker, stream, height);
        let after = pulled(world, walker, stream).1;
        if turns == 0 {
            assert(stream.faults.len() == 0);
            assert(stream.frame.next_entry >= stream.frame.listed.len());
            assert(stream.waiting.len() == 0);
            assert(false);
        } else if after.stopped {
            assert(ended(after, walker.error_policy));
        } else {
            lemma_runs_dry(world, walker, after, height, (turns - 1) as nat);
        }
    }
}

/// A stream over a finite tree comes to its end, under every policy, within the
/// number of turns that the tree takes.
pub proof fn law_a_stream_over_a_finite_tree_ends<C>(
    world: World<C>,
    walker: WalkerModel,
    stream: StreamModel<C>,
    height: int,
)
    requires
        stream_ends_within(world, walker, stream, height),
    ensures
        runs_dry(world, walker, stream, turns_left(world, walker, stream, height)),
{
    lemma_runs_dry(
        world,
        walker,
        stream,
        height,
        turns_left(world, walker, stream, height),
    );
}

} // verus!
