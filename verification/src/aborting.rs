//! The serial walk and the stream abort alike.
//!
//! Under an aborting policy a walk goes on exactly as under a collecting one
//! until the first failure. So a walk aborts exactly where the tree has a
//! failure in it, whichever frontend takes it up, and where it has none both
//! say the same entries.
use vstd::multiset::Multiset;
use vstd::prelude::*;
use vstd::seq_lib::group_to_multiset_ensures;

use crate::agreement::{
    ended, ends_within, failed_items, found_items, in_bounds, job_ends_within,
    law_a_step_says_what_it_had_to_say, law_a_turn_says_what_it_had_to_say, leads_on,
    left_to_say, lemma_a_stream_says_what_it_had_to_say, lemma_fresh_alike, lemma_no_items,
    of_item, of_jobs, pulled, rest_ends_within, said, says, stream_in_bounds, total,
};
use crate::options::{Entry, ErrorPolicy, Fault};
use crate::runs::{
    action_at, advanced, child_at, keeps_everything, read_by, step, unidentified, unreadable, Read,
    World,
};
use crate::stream::{is_fresh_stream, turned, StreamModel, TurnModel};
use crate::walk::{
    deferred_reports, fresh_state, ignore_reports, reported, root_jobs, taken_up,
    FrameModel, Job, StateModel, TaskModel,
};
use crate::walker::WalkerModel;

verus! {

/// The same walk under a collecting policy.
pub open spec fn collecting(walker: WalkerModel) -> WalkerModel {
    WalkerModel { error_policy: ErrorPolicy::Collect, ..walker }
}

/// Whether a serial walk comes to this outcome in this many steps: to its end,
/// or to the failure that aborts it.
pub open spec fn results_in<C>(
    world: World<C>,
    walker: WalkerModel,
    state: StateModel<C>,
    steps: nat,
    outcome: Result<StateModel<C>, Fault>,
) -> bool
    decreases steps,
{
    if steps == 0 {
        state.pending.len() == 0 && outcome == Ok::<StateModel<C>, Fault>(state)
    } else {
        state.pending.len() > 0 && match step(world, walker, state) {
            Ok(next) => results_in(world, walker, next, (steps - 1) as nat, outcome),
            Err(failed) => steps == 1 && outcome == Err::<StateModel<C>, Fault>(failed),
        }
    }
}

/// Whether there is a failure among items.
pub open spec fn has_failure(items: Multiset<Result<Entry, Fault>>) -> bool {
    exists|failed: Fault| items.count(#[trigger] failure_item(failed)) > 0
}

/// A failure, as an item.
pub open spec fn failure_item(failed: Fault) -> Result<Entry, Fault> {
    Err(failed)
}

/// The policy has no part in what a directory or an entry is.
proof fn lemma_policy_has_no_part<C>(
    world: World<C>,
    walker: WalkerModel,
    task: TaskModel<C>,
    frame: FrameModel<C>,
    index: int,
)
    ensures
        read_by(world, walker, task) == read_by(world, collecting(walker), task),
        action_at(world, walker, frame, index) == action_at(
            world,
            collecting(walker),
            frame,
            index,
        ),
{
}

proof fn lemma_directory_ends_alike<C>(
    world: World<C>,
    walker: WalkerModel,
    task: TaskModel<C>,
    height: nat,
)
    ensures
        ends_within(world, walker, task, height) == ends_within(
            world,
            collecting(walker),
            task,
            height,
        ),
    decreases height, 1nat, 0int,
{
    lemma_policy_has_no_part(world, walker, reported(task), arbitrary(), 0);
    if let Read::Opened(frame, _) = read_by(world, walker, reported(task)) {
        lemma_rest_ends_alike(world, walker, frame, height);
    }
}

proof fn lemma_rest_ends_alike<C>(
    world: World<C>,
    walker: WalkerModel,
    frame: FrameModel<C>,
    height: nat,
)
    ensures
        rest_ends_within(world, walker, frame, height) == rest_ends_within(
            world,
            collecting(walker),
            frame,
            height,
        ),
    decreases height, 0nat, frame.listed.len() - frame.next_entry,
{
    let index = frame.next_entry;
    if index < frame.listed.len() {
        lemma_policy_has_no_part(world, walker, frame.at, frame, index);
        if leads_on(action_at(world, walker, frame, index)) && height > 0 {
            lemma_directory_ends_alike(
                world,
                walker,
                child_at(world, frame, index),
                (height - 1) as nat,
            );
        }
        lemma_rest_ends_alike(world, walker, advanced(frame), height);
    }
}

/// An aborting step that goes on is the collecting one, and one that fails is
/// one that collects a failure.
proof fn lemma_aborting_step<C>(world: World<C>, walker: WalkerModel, state: StateModel<C>)
    requires
        walker.error_policy == ErrorPolicy::Abort,
        state.pending.len() > 0,
        state.faults.len() == 0,
        !state.cut_short,
    ensures
        match step(world, walker, state) {
            Ok(next) => step(world, collecting(walker), state) == Ok::<StateModel<C>, Fault>(next)
                && next.faults.len() == 0,
            Err(_) => step(world, collecting(walker), state) matches Ok(next)
                && next.faults.len() > 0,
        },
{
    match state.pending.last() {
        Job::Emit(_) => {},
        Job::Directory(task) => {
            lemma_policy_has_no_part(world, walker, reported(task), arbitrary(), 0);
            let early = ignore_reports(task.errors);
            assert(state.faults + early =~= early);
            if early.len() == 0 {
                assert(state.faults + early =~= state.faults);
            }
            if let Read::Opened(frame, failed) = read_by(world, walker, reported(task)) {
                assert(state.faults + failed =~= failed);
                if failed.len() == 0 {
                    assert(state.faults + failed =~= state.faults);
                }
            }
        },
        Job::Resume(frame) => {
            let taken = taken_up(frame);
            lemma_policy_has_no_part(world, walker, frame.at, taken, taken.next_entry);
            let late = deferred_reports(frame.deferred);
            assert(state.faults + late =~= late);
            if late.len() == 0 {
                assert(state.faults + late =~= state.faults);
            }
        },
    }
}

proof fn lemma_faults_show<C>(
    world: World<C>,
    walker: WalkerModel,
    state: StateModel<C>,
    height: int,
)
    requires
        state.faults.len() > 0,
    ensures
        has_failure(total(world, walker, state, height)),
{
    broadcast use group_to_multiset_ensures;

    let items = failed_items(state.faults);
    let first = state.faults[0];
    assert(items[0] == failure_item(first));
    assert(items.contains(failure_item(first)));
    assert(items.to_multiset().count(failure_item(first)) > 0);
    assert(total(world, walker, state, height).count(failure_item(first)) > 0);
}

proof fn lemma_no_failure_found(entries: Seq<Entry>)
    ensures
        !has_failure(found_items(entries).to_multiset()),
{
    broadcast use group_to_multiset_ensures;

    let items = found_items(entries);
    assert forall|failed: Fault| items.to_multiset().count(#[trigger] failure_item(failed)) == 0 by {
        if items.to_multiset().count(failure_item(failed)) > 0 {
            assert(items.contains(failure_item(failed)));
        }
    }
}

/// A serial walk that comes to its end has said everything, and one that aborts
/// had a failure to say.
proof fn lemma_aborting_run<C>(
    world: World<C>,
    walker: WalkerModel,
    state: StateModel<C>,
    steps: nat,
    outcome: Result<StateModel<C>, Fault>,
    height: int,
)
    requires
        walker.error_policy == ErrorPolicy::Abort,
        state.faults.len() == 0,
        in_bounds(world, collecting(walker), state, height),
        keeps_everything(world),
        results_in(world, walker, state, steps, outcome),
    ensures
        match outcome {
            Ok(end) => end.faults.len() == 0 && total(world, collecting(walker), state, height)
                == found_items(end.found).to_multiset(),
            Err(_) => has_failure(total(world, collecting(walker), state, height)),
        },
    decreases steps,
{
    let other = collecting(walker);
    if steps == 0 {
        lemma_no_items();
        assert(state.faults =~= Seq::empty());
        assert(of_jobs(world, other, state.pending, height) == Multiset::<
            Result<Entry, Fault>,
        >::empty());
        assert(total(world, other, state, height) =~= found_items(state.found).to_multiset());
    } else {
        lemma_aborting_step(world, walker, state);
        law_a_step_says_what_it_had_to_say(world, other, state, height);
        match step(world, walker, state) {
            Ok(next) => {
                lemma_aborting_run(world, walker, next, (steps - 1) as nat, outcome, height);
            },
            Err(_) => {
                lemma_faults_show(world, other, step(world, other, state)->Ok_0, height);
            },
        }
    }
}

/// An aborting turn says what the collecting one says; one that says no failure
/// goes on like it, and one that does stops the stream.
proof fn lemma_aborting_turn<C>(world: World<C>, walker: WalkerModel, stream: StreamModel<C>)
    requires
        walker.error_policy == ErrorPolicy::Abort,
        stream.faults.len() == 0,
        !stream.stopped,
        !stream.cancelled,
    ensures
        ended(stream, ErrorPolicy::Abort) == ended(stream, ErrorPolicy::Collect),
        ({
            let (item, after) = pulled(world, walker, stream);
            let (other_item, other_after) = pulled(world, collecting(walker), stream);
            &&& item == other_item
            &&& item matches Some(Err(_)) ==> after.stopped
            &&& !(item matches Some(Err(_))) ==> after == other_after && after.faults.len() == 0
        }),
{
    let frame = stream.frame;
    let (turn, after) = turned(stream, ErrorPolicy::Abort, false);
    match turn {
        TurnModel::Classify(index) => {
            lemma_policy_has_no_part(world, walker, frame.at, after.frame, index);
        },
        TurnModel::Prepare(task) => {
            lemma_policy_has_no_part(world, walker, reported(task), arbitrary(), 0);
            let early = ignore_reports(task.errors);
            match read_by(world, walker, reported(task)) {
                Read::Cycle => {
                    lemma_first_of_queue(after.faults, early);
                },
                Read::Unidentified(failure) => {
                    let last = unidentified(walker, task, failure);
                    assert(last == unidentified(collecting(walker), task, failure));
                    lemma_first_of_queue(after.faults, early.push(last));
                },
                Read::Unreadable(failure) => {
                    let last = unreadable(task, failure);
                    lemma_first_of_queue(after.faults, early.push(last));
                },
                Read::Opened(_, failed) => {
                    lemma_first_of_queue(after.faults, early + failed);
                },
            }
        },
        _ => {},
    }
}

proof fn lemma_first_of_queue(faults: Seq<Fault>, errors: Seq<Fault>)
    requires
        faults.len() == 0,
    ensures
        (faults + errors.reverse()).len() == errors.len(),
        errors.len() > 0 ==> (faults + errors.reverse()).last() == errors[0],
{
}

/// Whether what a stream said ends with a failure, and only there.
pub open spec fn fails_at_the_end(items: Seq<Result<Entry, Fault>>) -> bool {
    items.len() > 0 && items.last() is Err
}

/// A stream that says no failure has said everything, and one that says one had
/// it to say, says it last and then nothing more.
proof fn lemma_aborting_stream<C>(
    world: World<C>,
    walker: WalkerModel,
    stream: StreamModel<C>,
    turns: nat,
    items: Seq<Result<Entry, Fault>>,
    height: int,
)
    requires
        walker.error_policy == ErrorPolicy::Abort,
        stream.faults.len() == 0,
        stream_in_bounds(world, collecting(walker), stream, height),
        says(world, walker, stream, turns, items),
    ensures
        forall|i: int| 0 <= i < items.len() - 1 ==> (#[trigger] items[i]) is Ok,
        fails_at_the_end(items) ==> has_failure(
            left_to_say(world, collecting(walker), stream, height),
        ),
        !fails_at_the_end(items) ==> items.to_multiset() == left_to_say(
            world,
            collecting(walker),
            stream,
            height,
        ) && !has_failure(items.to_multiset()),
    decreases turns,
{
    broadcast use group_to_multiset_ensures;

    let other = collecting(walker);
    lemma_aborting_turn(world, walker, stream);
    if turns == 0 {
        lemma_a_stream_says_what_it_had_to_say(
            world,
            other,
            stream,
            turns,
            items,
            height,
        );
        assert(items =~= Seq::empty());
        assert(found_items(Seq::empty()) =~= items);
        lemma_no_failure_found(Seq::empty());
    } else {
        law_a_turn_says_what_it_had_to_say(world, other, stream, height);
        let (item, after) = pulled(world, walker, stream);
        let left = left_to_say(world, other, stream, height);
        match item {
            Some(Err(failed)) => {
                let rest = items.drop_first();
                assert(after.stopped);
                assert(says(world, walker, after, (turns - 1) as nat, rest));
                assert(ended(after, walker.error_policy));
                assert(rest.len() == 0);
                assert(items.len() == 1);
                assert(left.count(failure_item(failed)) > 0) by {
                    assert(of_item(item).count(failure_item(failed)) == 1);
                }
            },
            Some(Ok(entry)) => {
                let rest = items.drop_first();
                lemma_aborting_stream(world, walker, after, (turns - 1) as nat, rest, height);
                let first = Seq::empty().push(Ok::<Entry, Fault>(entry));
                assert(items =~= first + rest);
                assert forall|i: int| 0 <= i < items.len() - 1 implies (#[trigger] items[i]) is Ok by {
                    if i > 0 {
                        assert(rest[i - 1] == items[i]);
                    }
                }
                vstd::seq_lib::lemma_multiset_commutative(first, rest);
                assert(first.to_multiset() =~= of_item(item));
                assert(items.to_multiset() =~= of_item(item).add(rest.to_multiset()));
                if rest.len() > 0 {
                    assert(rest.last() == items.last());
                }
                let after_left = left_to_say(world, other, after, height);
                assert(left == of_item(item).add(after_left));
                if fails_at_the_end(items) {
                    let failed = choose|failed: Fault|
                        after_left.count(#[trigger] failure_item(failed)) > 0;
                    assert(left.count(failure_item(failed)) > 0);
                } else {
                    assert(items.to_multiset() =~= left);
                    assert forall|failed: Fault|
                        items.to_multiset().count(#[trigger] failure_item(failed)) == 0 by {
                        assert(of_item(item).count(failure_item(failed)) == 0);
                        assert(rest.to_multiset().count(failure_item(failed)) == 0);
                    }
                }
            },
            None => {
                lemma_aborting_stream(world, walker, after, (turns - 1) as nat, items, height);
                assert(left =~= left_to_say(world, other, after, height));
            },
        }
    }
}

/// The frontends abort alike: on a finite tree, under an aborting policy, the
/// stream says a failure exactly where the serial walk aborts, and it says it
/// last. Where neither does, the stream says exactly the entries that the
/// serial walk finds, each as often, in an order of its own.
///
/// Where there are several failures, the two may come upon another one first.
pub proof fn law_the_frontends_abort_alike<C>(
    world: World<C>,
    walker: WalkerModel,
    roots: Seq<TaskModel<C>>,
    height: nat,
    steps: nat,
    outcome: Result<StateModel<C>, Fault>,
    stream: StreamModel<C>,
    turns: nat,
    items: Seq<Result<Entry, Fault>>,
)
    requires
        walker.error_policy == ErrorPolicy::Abort,
        keeps_everything(world),
        forall|i: int|
            #![trigger roots[i]]
            0 <= i < roots.len() ==> roots[i].depth == 0 && ends_within(
                world,
                walker,
                roots[i],
                height,
            ),
        results_in(world, walker, fresh_state(root_jobs(roots)), steps, outcome),
        is_fresh_stream(stream, roots),
        says(world, walker, stream, turns, items),
    ensures
        forall|i: int| 0 <= i < items.len() - 1 ==> (#[trigger] items[i]) is Ok,
        match outcome {
            Err(_) => fails_at_the_end(items),
            Ok(end) => !fails_at_the_end(items) && items.to_multiset() == found_items(
                end.found,
            ).to_multiset(),
        },
{
    let start = fresh_state(root_jobs(roots));
    let bound = height as int;
    let other = collecting(walker);
    assert forall|i: int| 0 <= i < roots.len() implies job_ends_within(
        world,
        other,
        Job::Directory(#[trigger] roots[i]),
        bound,
    ) by {
        lemma_directory_ends_alike(world, walker, roots[i], height);
    }
    assert(in_bounds(world, other, start, bound)) by {
        assert forall|i: int| 0 <= i < start.pending.len() implies job_ends_within(
            world,
            other,
            #[trigger] start.pending[i],
            bound,
        ) by {
            let task = roots[roots.len() - 1 - i];
            assert(start.pending[i] == Job::Directory(task));
        }
    }
    assert(stream_in_bounds(world, other, stream, bound)) by {
        assert forall|i: int| 0 <= i < stream.waiting.len() implies job_ends_within(
            world,
            other,
            Job::Directory(#[trigger] stream.waiting[i]),
            bound,
        ) by {
            assert(stream.waiting[i] == roots[roots.len() - 1 - i]);
        }
    }
    lemma_aborting_run(world, walker, start, steps, outcome, bound);
    lemma_aborting_stream(world, walker, stream, turns, items, bound);
    lemma_fresh_alike(world, other, roots, stream, bound);
    match outcome {
        Ok(end) => {
            lemma_no_failure_found(end.found);
        },
        Err(_) => {},
    }
}

} // verus!
