//! Matching a rule's components against a candidate's.
use vstd::prelude::*;
use vstd::slice::slice_subrange;

use crate::bytes::{index_from, lemma_index_from, position_from, SLASH};

verus! {

/// The components of a candidate path. A separator at the end adds none.
pub open spec fn path_names(path: Seq<u8>) -> Seq<Seq<u8>>
    decreases path.len(),
{
    if path.len() == 0 {
        Seq::empty()
    } else {
        let at = index_from(path, SLASH, 0);
        if at >= path.len() || at < 0 {
            seq![path]
        } else {
            seq![path.take(at)] + path_names(path.skip(at + 1))
        }
    }
}

/// Whether the components from number `i` on cover the names from number `j`
/// on: a run covers any number of names, and every other component exactly the
/// one name it accepts.
///
/// `accepts[i][j]` says whether component `i`, where it is no run, accepts
/// name `j` of `count`.
pub open spec fn covers_from(
    runs: Seq<bool>,
    accepts: Seq<Seq<bool>>,
    count: int,
    i: int,
    j: int,
) -> bool
    decreases runs.len() - i, count - j,
{
    if i >= runs.len() {
        j == count
    } else if runs[i] {
        covers_from(runs, accepts, count, i + 1, j) || (j < count && covers_from(
            runs,
            accepts,
            count,
            i,
            j + 1,
        ))
    } else {
        j < count && accepts[i][j] && covers_from(runs, accepts, count, i + 1, j + 1)
    }
}

/// A run covers any number of names: what follows it covers the names from
/// some number on.
pub proof fn law_a_run_covers_any_number_of_names(
    runs: Seq<bool>,
    accepts: Seq<Seq<bool>>,
    count: int,
    i: int,
    j: int,
)
    requires
        0 <= i < runs.len(),
        runs[i],
        j <= count,
    ensures
        covers_from(runs, accepts, count, i, j) <==> exists|k: int|
            j <= k <= count && #[trigger] covers_from(runs, accepts, count, i + 1, k),
    decreases count - j,
{
    if j < count {
        law_a_run_covers_any_number_of_names(runs, accepts, count, i, j + 1);
    }
    if covers_from(runs, accepts, count, i + 1, j) {
        assert(j <= j <= count);
    }
}

/// Components that are no runs take one name each.
proof fn lemma_single_components(
    runs: Seq<bool>,
    accepts: Seq<Seq<bool>>,
    count: int,
    i: int,
    m: int,
    k: int,
)
    requires
        0 <= i,
        0 <= m,
        i + m <= runs.len(),
        forall|x: int| i <= x < i + m ==> !runs[x],
        k <= count,
        covers_from(runs, accepts, count, i, k),
    ensures
        k + m <= count,
        covers_from(runs, accepts, count, i + m, k + m),
    decreases m,
{
    if m > 0 {
        lemma_single_components(runs, accepts, count, i + 1, m - 1, k + 1);
    }
}

/// Nothing but runs covers no names.
proof fn lemma_covers_nothing(runs: Seq<bool>, accepts: Seq<Seq<bool>>, count: int, i: int)
    requires
        0 <= i <= runs.len(),
        count >= 0,
    ensures
        covers_from(runs, accepts, count, i, count) <==> forall|x: int|
            i <= x < runs.len() ==> runs[x],
    decreases runs.len() - i,
{
    if i < runs.len() {
        lemma_covers_nothing(runs, accepts, count, i + 1);
        assert((forall|x: int| i <= x < runs.len() ==> runs[x]) <==> runs[i] && forall|x: int|
            i + 1 <= x < runs.len() ==> runs[x]) by {
            if runs[i] && forall|x: int| i + 1 <= x < runs.len() ==> runs[x] {
                assert forall|x: int| i <= x < runs.len() implies runs[x] by {
                    assert(x == i || i + 1 <= x);
                }
            }
        }
    }
}

/// Whether a rule's components cover all of a candidate's names.
///
/// The classic wildcard walk, one level up: a run stands for any number of
/// names, every other component consumes exactly one, and a mismatch lets the
/// last run swallow one name more. That keeps the work proportional to names
/// times components, however many runs there are.
pub fn covers_names(runs: &[bool], accepts: &Vec<Vec<bool>>, count: usize) -> (result: bool)
    requires
        accepts@.len() == runs@.len(),
        forall|i: int| 0 <= i < runs@.len() ==> (#[trigger] accepts@[i])@.len() == count,
    ensures
        result == covers_from(
            runs@,
            Seq::new(accepts@.len(), |i: int| accepts@[i]@),
            count as int,
            0,
            0,
        ),
{
    let ghost table = Seq::new(accepts@.len(), |i: int| accepts@[i]@);
    let ghost goal = covers_from(runs@, table, count as int, 0, 0);
    let mut index: usize = 0;
    let mut at: usize = 0;
    // Where the last run began: the component behind it, and the first name
    // it has not swallowed.
    let mut in_run = false;
    let mut behind: usize = 0;
    let mut unswallowed: usize = 0;
    while at < count
        invariant
            accepts@.len() == runs@.len(),
            forall|i: int| 0 <= i < runs@.len() ==> (#[trigger] accepts@[i])@.len() == count,
            table == Seq::new(accepts@.len(), |i: int| accepts@[i]@),
            goal == covers_from(runs@, table, count as int, 0, 0),
            index <= runs@.len(),
            at <= count,
            !in_run ==> goal == covers_from(runs@, table, count as int, index as int, at as int),
            in_run ==> {
                &&& behind <= index
                &&& unswallowed <= count
                &&& at == unswallowed + (index - behind)
                &&& forall|x: int| behind <= x < index ==> !runs@[x]
            },
            in_run ==> goal == (covers_from(runs@, table, count as int, index as int, at as int)
                || exists|k: int|
                unswallowed < k <= count && #[trigger] covers_from(
                    runs@,
                    table,
                    count as int,
                    behind as int,
                    k,
                )),
        decreases
                (if in_run {
                    count - unswallowed
                } else {
                    count + 1
                }),
                runs@.len() - index,
    {
        if index < runs.len() && runs[index] {
            proof {
                if in_run && exists|k: int|
                    unswallowed < k <= count && #[trigger] covers_from(
                        runs@,
                        table,
                        count as int,
                        behind as int,
                        k,
                    ) {
                    // Whatever an earlier run could still swallow, this one can.
                    let k = choose|k: int|
                        unswallowed < k <= count && #[trigger] covers_from(
                            runs@,
                            table,
                            count as int,
                            behind as int,
                            k,
                        );
                    let m = index - behind;
                    lemma_single_components(runs@, table, count as int, behind as int, m, k);
                    law_a_run_covers_any_number_of_names(
                        runs@,
                        table,
                        count as int,
                        index as int,
                        k + m,
                    );
                    let later = choose|later: int|
                        k + m <= later <= count && #[trigger] covers_from(
                            runs@,
                            table,
                            count as int,
                            index + 1,
                            later,
                        );
                    assert(at < later);
                }
                law_a_run_covers_any_number_of_names(
                    runs@,
                    table,
                    count as int,
                    index as int,
                    at as int,
                );
            }
            in_run = true;
            unswallowed = at;
            index += 1;
            behind = index;
        } else if index < runs.len() && accepts[index][at] {
            assert(table[index as int] == accepts@[index as int]@);
            index += 1;
            at += 1;
        } else {
            // Either the rule ran out with names left, or this component does
            // not accept: both are for the last run to absorb, if there is one.
            assert(index < runs@.len() ==> table[index as int] == accepts@[index as int]@);
            assert(!covers_from(runs@, table, count as int, index as int, at as int));
            if !in_run {
                return false;
            }
            unswallowed += 1;
            index = behind;
            at = unswallowed;
        }
    }
    proof {
        if in_run && exists|k: int|
            unswallowed < k <= count && #[trigger] covers_from(
                runs@,
                table,
                count as int,
                behind as int,
                k,
            ) {
            let k = choose|k: int|
                unswallowed < k <= count && #[trigger] covers_from(
                    runs@,
                    table,
                    count as int,
                    behind as int,
                    k,
                );
            lemma_single_components(runs@, table, count as int, behind as int, index - behind, k);
        }
        lemma_covers_nothing(runs@, table, count as int, index as int);
    }
    // The names are spent, so what is left of the rule may only be runs.
    let mut rest: usize = index;
    while rest < runs.len()
        invariant
            index <= rest <= runs@.len(),
            forall|x: int| index <= x < rest ==> runs@[x],
            table == Seq::new(accepts@.len(), |i: int| accepts@[i]@),
            goal == covers_from(runs@, table, count as int, 0, 0),
            goal == (forall|x: int| index <= x < runs@.len() ==> runs@[x]),
        decreases runs@.len() - rest,
    {
        if !runs[rest] {
            return false;
        }
        rest += 1;
    }
    true
}

/// The components of a candidate path.
pub fn split_names<'a>(path: &'a [u8]) -> (result: Vec<&'a [u8]>)
    ensures
        Seq::new(result@.len(), |i: int| result@[i]@) == path_names(path@),
{
    let mut names: Vec<&'a [u8]> = Vec::new();
    let mut start: usize = 0;
    assert(path@.skip(0) =~= path@);
    assert(Seq::new(names@.len(), |i: int| names@[i]@) + path_names(path@) =~= path_names(path@));
    while start < path.len()
        invariant
            start <= path@.len(),
            Seq::new(names@.len(), |i: int| names@[i]@) + path_names(path@.skip(start as int))
                == path_names(path@),
        decreases path@.len() - start,
    {
        let (name, rest) = split_component(slice_subrange(path, start, path.len()));
        let ghost before = Seq::new(names@.len(), |i: int| names@[i]@);
        let ghost tail = path@.skip(start as int);
        proof {
            lemma_index_from(tail, SLASH, 0);
            assert(path@.subrange(start as int, path@.len() as int) =~= tail);
        }
        names.push(name);
        start = path.len() - rest.len();
        proof {
            assert(Seq::new(names@.len(), |i: int| names@[i]@) =~= before.push(name@));
            assert(path@.skip(start as int) =~= rest@);
            let at = index_from(tail, SLASH, 0);
            if at >= tail.len() {
                assert(path_names(rest@) =~= Seq::empty());
                assert(path_names(tail) =~= seq![name@] + path_names(rest@));
            }
            assert(before + (seq![name@] + path_names(rest@)) =~= before.push(name@) + path_names(
                rest@,
            ));
        }
    }
    assert(path@.skip(start as int) =~= Seq::empty());
    assert(path_names(path@.skip(start as int)) =~= Seq::empty());
    assert(Seq::new(names@.len(), |i: int| names@[i]@) + Seq::empty() =~= Seq::new(
        names@.len(),
        |i: int| names@[i]@,
    ));
    names
}

/// Splits off the first path component; the tail is empty at the last one.
fn split_component(path: &[u8]) -> (result: (&[u8], &[u8]))
    ensures
        ({
            let at = index_from(path@, SLASH, 0);
            &&& at < path@.len() ==> result.0@ == path@.take(at) && result.1@ == path@.skip(at + 1)
            &&& at >= path@.len() ==> result.0@ == path@ && result.1@ == Seq::<u8>::empty()
        }),
{
    let at = position_from(path, SLASH, 0);
    let name = slice_subrange(path, 0, at);
    if at < path.len() {
        let rest = slice_subrange(path, at + 1, path.len());
        assert(name@ =~= path@.take(at as int));
        assert(rest@ =~= path@.skip(at + 1));
        (name, rest)
    } else {
        let rest = slice_subrange(path, at, at);
        assert(name@ =~= path@);
        assert(rest@ =~= Seq::<u8>::empty());
        (name, rest)
    }
}

} // verus!
