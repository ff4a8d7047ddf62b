//! Browser score fractions: who is to blame for a failure.
//!
//! A run is blamed for a test, or for a subtest, where it is the only run
//! that fails it while every other run passes it. A test with subtests
//! scores, for each run, the fraction of its subtests that the run is blamed
//! for; a test without subtests scores one for the run that is blamed for it.

use crate::paths::{dir_keys, directory_keys, key_views};
use crate::totals::{
    add_scores, column_parts, column_term, dir_parts, dir_term, entry_parts, first_error,
    in_some_dir, lemma_count_prefix, lemma_count_step, lemma_first_error,
    lemma_first_error_prefix, lemma_in_some_dir_step, lemma_parts_fit, lemma_seq_sum_prefix,
    lemma_seq_sum_step, scores_parts, sum_parts, sums_in_order, DirTotals, ExactSum,
};
use crate::utils::{
    above, ascending, group_of, lemma_filter_count, lemma_names_finite, lemma_walk_end,
    lemma_walk_step, names, occurs, sources, values, walked, AlignedResults, TestName,
};
use crate::wptreport::{StatusClass, SubtestResult, TestResult, WptReport};
use vstd::prelude::*;
use vstd::set_lib::lemma_len_subset;

verus! {

/// A score of one run: the part `num` of `den`, a number from zero to one.
#[derive(Clone, Copy, Debug, PartialEq, Eq, Structural)]
pub struct Fraction {
    /// How many units the run is blamed for.
    pub num: usize,
    /// How many units were compared: at least one.
    pub den: usize,
}

/// Why no score could be given.
#[derive(Clone, Copy, Debug, PartialEq, Eq, Structural)]
pub enum ScoreError {
    /// A run reports one test more than once.
    MultipleResults,
    /// A test has more subtests, or a sum more parts, than can be counted.
    TooManySubtests,
    /// There was no test to score.
    NoScores,
}

impl ScoreError {
    /// The error in words.
    pub fn message(&self) -> (text: &'static str)
        ensures
            text@ == match *self {
                ScoreError::MultipleResults => "have multiple results for a single test"@,
                ScoreError::TooManySubtests => "too many subtests"@,
                ScoreError::NoScores => "no test scores found?"@,
            },
    {
        match self {
            ScoreError::MultipleResults => "have multiple results for a single test",
            ScoreError::TooManySubtests => "too many subtests",
            ScoreError::NoScores => "no test scores found?",
        }
    }
}

/// The buckets of a group, as the records that they hold.
pub open spec fn group_values<T>(buckets: Seq<Vec<&T>>) -> Seq<Seq<T>> {
    buckets.map_values(|bucket: Vec<&T>| values(bucket@))
}

/// What a run shows of a unit: a run that lacks the unit, or fails it, may
/// be the one to blame.
pub open spec fn is_candidate(seen: Option<StatusClass>) -> bool {
    seen is None || seen == Some(StatusClass::Failing)
}

/// The run `slot` is to blame: it lacks the unit or fails it, and every
/// other run passes it.
pub open spec fn blames(seen: Seq<Option<StatusClass>>, slot: int) -> bool {
    &&& 0 <= slot < seen.len()
    &&& is_candidate(seen[slot])
    &&& forall|other: int|
        0 <= other < seen.len() && other != slot ==> seen[other] == Some(StatusClass::Passing)
}

/// One for the run that is to blame, zero for every other run.
pub open spec fn blame(seen: Seq<Option<StatusClass>>, slot: int) -> nat {
    if blames(seen, slot) {
        1
    } else {
        0
    }
}

/// What a bucket of subtest records shows: the class of its first record.
pub open spec fn seen_subtest(bucket: Seq<SubtestResult>) -> Option<StatusClass> {
    if bucket.len() == 0 {
        None
    } else {
        Some(bucket[0].status.class())
    }
}

/// What a bucket of test records shows: the class of the status of its
/// first record.
pub open spec fn seen_test(bucket: Seq<TestResult>) -> Option<StatusClass> {
    if bucket.len() == 0 {
        None
    } else {
        Some(bucket[0].status.class())
    }
}

/// What each run shows of one subtest.
pub open spec fn subtest_views(group: Seq<Seq<SubtestResult>>) -> Seq<Option<StatusClass>> {
    group.map_values(|bucket: Seq<SubtestResult>| seen_subtest(bucket))
}

/// What each run shows of one test, by the test's own status.
pub open spec fn test_views(group: Seq<Seq<TestResult>>) -> Seq<Option<StatusClass>> {
    group.map_values(|bucket: Seq<TestResult>| seen_test(bucket))
}

/// Finds the run to blame among what the runs show, if there is one.
fn find_blamed(seen: &Vec<Option<StatusClass>>) -> (blamed: Option<usize>)
    ensures
        match blamed {
            Some(slot) => blames(seen@, slot as int),
            None => forall|slot: int| !blames(seen@, slot),
        },
{
    let mut failing_result: Option<usize> = None;
    let mut i: usize = 0;
    while i < seen.len()
        invariant
            i <= seen@.len(),
            match failing_result {
                Some(slot) => slot < i && is_candidate(seen@[slot as int]),
                None => true,
            },
            forall|j: int|
                0 <= j < i && failing_result != Some(j as usize) ==> seen@[j] == Some(
                    StatusClass::Passing,
                ),
        decreases seen@.len() - i,
    {
        match seen[i] {
            Some(StatusClass::Ignore) => {
                return None;
            },
            None | Some(StatusClass::Failing) => {
                match failing_result {
                    None => {
                        failing_result = Some(i);
                    },
                    Some(_) => {
                        return None;
                    },
                }
            },
            Some(StatusClass::Passing) => {},
        }
        i += 1;
    }
    failing_result
}

/// Adds to `scores` the blame for one subtest: one more for the run that is
/// to blame for it, if there is such a run. `run_results` holds, run by
/// run, the records of the subtest.
pub fn score_subtest_mut(run_results: &[Vec<&SubtestResult>], scores: &mut [usize])
    requires
        run_results@.len() > 1,
        run_results@.len() == old(scores)@.len(),
        forall|slot: int|
            blames(subtest_views(group_values(run_results@)), slot) ==> old(scores)@[slot]
                < usize::MAX,
    ensures
        final(scores)@.len() == old(scores)@.len(),
        forall|slot: int|
            0 <= slot < old(scores)@.len() ==> final(scores)@[slot] == old(scores)@[slot] + blame(
                subtest_views(group_values(run_results@)),
                slot,
            ),
{
    let ghost views = subtest_views(group_values(run_results@));
    let mut seen: Vec<Option<StatusClass>> = Vec::new();
    let mut i: usize = 0;
    while i < run_results.len()
        invariant
            i <= run_results@.len(),
            views == subtest_views(group_values(run_results@)),
            seen@ == views.subrange(0, i as int),
        decreases run_results@.len() - i,
    {
        let results = &run_results[i];
        let status = if results.len() == 0 {
            None
        } else {
            Some(results[0].status.classify())
        };
        seen.push(status);
        i += 1;
    }
    assert(seen@ =~= views);
    match find_blamed(&seen) {
        None => {},
        Some(slot) => {
            let count = scores[slot];
            scores[slot] = count + 1;
        },
    }
}

/// The largest count that a score can hold exactly.
pub const MAX_EXACT_COUNT: u64 = 9_007_199_254_740_992;

/// The count `n` can be held in a score.
pub open spec fn countable(n: nat) -> bool {
    n <= MAX_EXACT_COUNT && n <= usize::MAX
}

/// The test that the run `slot` is to blame for the subtest `id` of `runs`,
/// where `runs` holds, run by run, the subtests of one test.
pub open spec fn blamed_in(runs: Seq<Seq<SubtestResult>>, slot: int) -> spec_fn(Seq<char>) -> bool {
    |id: Seq<char>| blames(subtest_views(group_of(runs, id)), slot)
}

/// The number of subtests of one test: of the names that any run reports.
pub open spec fn subtest_count(runs: Seq<Seq<SubtestResult>>) -> nat {
    names(runs).len()
}

/// The number of subtests that the run `slot` is to blame for.
pub open spec fn blame_count(runs: Seq<Seq<SubtestResult>>, slot: int) -> nat {
    names(runs).filter(blamed_in(runs, slot)).len()
}

/// Scores a test by its subtests: `test_results` holds, run by run, the
/// subtests that the run reports for the test. Each run's score is the
/// number of subtests that it is to blame for, out of the number of
/// subtests, and is pushed to `scores`.
///
/// Fails, and leaves `scores` empty, where there are more subtests than a
/// score can count.
pub fn score_subtests_mut(test_results: &[&Vec<SubtestResult>], scores: &mut Vec<Fraction>) -> (done:
    Result<(), ScoreError>)
    requires
        test_results@.len() > 1,
        old(scores)@.len() == 0,
        exists|s: int| 0 <= s < test_results@.len() && (#[trigger] test_results@[s])@.len() > 0,
    ensures
        names(sources(test_results@)).finite(),
        subtest_count(sources(test_results@)) > 0,
        match done {
            Ok(()) => {
                &&& countable(subtest_count(sources(test_results@)))
                &&& final(scores)@.len() == test_results@.len()
                &&& forall|slot: int|
                    0 <= slot < test_results@.len() ==> {
                        &&& (#[trigger] final(scores)@[slot]).num == blame_count(
                            sources(test_results@),
                            slot,
                        )
                        &&& final(scores)@[slot].den == subtest_count(sources(test_results@))
                    }
            },
            Err(e) => {
                &&& e == ScoreError::TooManySubtests
                &&& !countable(subtest_count(sources(test_results@)))
                &&& final(scores)@.len() == 0
            },
        },
{
    let n = test_results.len();
    let ghost runs = sources(test_results@);
    let mut subtest_total: Vec<usize> = Vec::new();
    let mut slot: usize = 0;
    while slot < n
        invariant
            slot <= n,
            subtest_total@.len() == slot,
            forall|t: int| 0 <= t < slot ==> subtest_total@[t] == 0,
        decreases n - slot,
    {
        subtest_total.push(0);
        slot += 1;
    }
    let mut aligned = AlignedResults::new(test_results);
    let mut results: usize = 0;
    let mut too_many = false;
    let ghost mut ids: Seq<Seq<char>> = Seq::empty();
    loop
        invariant
            n == test_results@.len(),
            n > 1,
            runs == sources(test_results@),
            aligned.wf(),
            aligned.source() == runs,
            walked(runs, aligned.last(), ids),
            subtest_total@.len() == n,
            too_many ==> !countable(ids.len()),
            !too_many ==> results == ids.len(),
            !too_many ==> forall|t: int|
                0 <= t < n ==> #[trigger] subtest_total@[t] == ids.filter(blamed_in(runs, t)).len(),
            forall|t: int| 0 <= t < n ==> #[trigger] subtest_total@[t] <= results,
            countable(results as nat),
        ensures
            n == test_results@.len(),
            walked(runs, aligned.last(), ids),
            forall|id: Seq<char>| #[trigger] occurs(runs, id) ==> !above(aligned.last(), id),
            subtest_total@.len() == n,
            too_many ==> !countable(ids.len()),
            !too_many ==> results == ids.len(),
            !too_many ==> forall|t: int|
                0 <= t < n ==> #[trigger] subtest_total@[t] == ids.filter(blamed_in(runs, t)).len(),
            countable(results as nat),
        decreases aligned.remaining(),
    {
        let ghost last = aligned.last();
        match aligned.next() {
            None => {
                break ;
            },
            Some((id, subtest)) => {
                proof {
                    lemma_walk_step(runs, last, ids, id@);
                }
                if too_many || results as u64 >= MAX_EXACT_COUNT || results == usize::MAX {
                    too_many = true;
                } else {
                    score_subtest_mut(subtest.as_slice(), subtest_total.as_mut_slice());
                    results += 1;
                    proof {
                        assert(group_values(subtest@) =~= group_of(runs, id@));
                        assert forall|t: int| 0 <= t < n implies #[trigger] subtest_total@[t]
                            == ids.push(id@).filter(blamed_in(runs, t)).len() by {
                            reveal(Seq::filter);
                            assert(ids.push(id@).drop_last() =~= ids);
                        }
                    }
                }
                proof {
                    ids = ids.push(id@);
                }
            },
        }
    }
    proof {
        lemma_walk_end(runs, aligned.last(), ids);
        let s = choose|s: int|
            0 <= s < test_results@.len() && (#[trigger] test_results@[s])@.len() > 0;
        assert(names(runs).contains(runs[s][0].spec_id()));
        assert forall|t: int| 0 <= t < n implies ids.filter(blamed_in(runs, t)).len()
            == blame_count(runs, t) by {
            lemma_filter_count(ids, blamed_in(runs, t));
        }
    }
    if too_many {
        return Err(ScoreError::TooManySubtests);
    }
    let mut slot: usize = 0;
    while slot < n
        invariant
            slot <= n,
            n == subtest_total@.len(),
            scores@.len() == slot,
            forall|t: int|
                0 <= t < slot ==> (#[trigger] scores@[t]) == (Fraction {
                    num: subtest_total@[t],
                    den: results,
                }),
        decreases n - slot,
    {
        scores.push(Fraction { num: subtest_total[slot], den: results });
        slot += 1;
    }
    Ok(())
}

/// The bucket holds a record that has subtests.
pub open spec fn has_subtests(bucket: Seq<TestResult>) -> bool {
    bucket.len() > 0 && bucket[0].subtests@.len() > 0
}

/// Some run holds more than one record of the test.
pub open spec fn has_multiple(group: Seq<Seq<TestResult>>) -> bool {
    exists|s: int| 0 <= s < group.len() && (#[trigger] group[s]).len() > 1
}

/// Every run holds a record of the test that has subtests.
pub open spec fn all_have_subtests(group: Seq<Seq<TestResult>>) -> bool {
    forall|s: int| 0 <= s < group.len() ==> has_subtests(#[trigger] group[s])
}

/// Some run holds a record of the test that has subtests.
pub open spec fn some_have_subtests(group: Seq<Seq<TestResult>>) -> bool {
    exists|s: int| 0 <= s < group.len() && has_subtests(#[trigger] group[s])
}

/// Run by run, the subtests of the run's first record of the test.
pub open spec fn subtests_of(group: Seq<Seq<TestResult>>) -> Seq<Seq<SubtestResult>> {
    group.map_values(
        |bucket: Seq<TestResult>|
            if bucket.len() > 0 {
                bucket[0].subtests@
            } else {
                Seq::empty()
            },
    )
}

/// The scores of a test without subtests: one for the run that is to blame
/// by the test's own status, zero for every other run.
pub open spec fn status_scores(group: Seq<Seq<TestResult>>) -> Seq<Fraction> {
    Seq::new(
        group.len(),
        |slot: int| (Fraction { num: blame(test_views(group), slot) as usize, den: 1 }),
    )
}

/// The scores of a test with subtests: for each run the subtests that it
/// is to blame for, out of all subtests of the test.
pub open spec fn subtest_scores(runs: Seq<Seq<SubtestResult>>) -> Seq<Fraction> {
    Seq::new(
        runs.len(),
        |slot: int|
            (Fraction {
                num: blame_count(runs, slot) as usize,
                den: subtest_count(runs) as usize,
            }),
    )
}

/// A score of zero for each of `n` runs.
pub open spec fn zero_scores(n: nat) -> Seq<Fraction> {
    Seq::new(n, |slot: int| (Fraction { num: 0, den: 1 }))
}

/// The scores of one test, given run by run the records that the run holds
/// of it.
///
/// - A run with several records of the test makes the test unscorable.
/// - Where every run reports subtests, the test is scored by its subtests.
/// - Where some runs report subtests and others do not, nobody is blamed.
/// - Where no run reports subtests, the test is scored by its own status.
pub open spec fn test_score(group: Seq<Seq<TestResult>>) -> Result<Seq<Fraction>, ScoreError> {
    if has_multiple(group) {
        Err(ScoreError::MultipleResults)
    } else if all_have_subtests(group) {
        if countable(subtest_count(subtests_of(group))) {
            Ok(subtest_scores(subtests_of(group)))
        } else {
            Err(ScoreError::TooManySubtests)
        }
    } else if some_have_subtests(group) {
        Ok(zero_scores(group.len()))
    } else {
        Ok(status_scores(group))
    }
}

/// The outcome of scoring a test, with the scores as a sequence.
pub open spec fn score_view(scored: Result<Vec<Fraction>, ScoreError>) -> Result<
    Seq<Fraction>,
    ScoreError,
> {
    match scored {
        Ok(scores) => Ok(scores@),
        Err(e) => Err(e),
    }
}

/// Every score is a part of a whole: at most one, and out of at least one.
pub open spec fn in_unit_interval(scores: Seq<Fraction>) -> bool {
    forall|slot: int|
        0 <= slot < scores.len() ==> (#[trigger] scores[slot]).num <= scores[slot].den && 1
            <= scores[slot].den
}

/// The scores are such as a test is given: every one is a part of a whole,
/// and of a whole that can be counted exactly.
pub open spec fn valid_scores(scores: Seq<Fraction>) -> bool {
    &&& in_unit_interval(scores)
    &&& forall|slot: int| 0 <= slot < scores.len() ==> (#[trigger] scores[slot]).den
        <= MAX_EXACT_COUNT
}

/// Scores a test that no run reports subtests for, by the test's own
/// status, and pushes each run's score to `scores`: one for the run that is
/// to blame, zero for every other run.
pub fn score_test_no_subtest_mut(run_results: &[Vec<&TestResult>], scores: &mut Vec<Fraction>)
    requires
        run_results@.len() > 1,
        old(scores)@.len() == 0,
        !some_have_subtests(group_values(run_results@)),
    ensures
        final(scores)@ == status_scores(group_values(run_results@)),
{
    let ghost group = group_values(run_results@);
    let ghost views = test_views(group);
    let n = run_results.len();
    let mut seen: Vec<Option<StatusClass>> = Vec::new();
    let mut i: usize = 0;
    while i < n
        invariant
            i <= n,
            n == run_results@.len(),
            scores@.len() == i,
            forall|t: int| 0 <= t < i ==> #[trigger] scores@[t] == (Fraction { num: 0, den: 1 }),
            group == group_values(run_results@),
            views == test_views(group),
            seen@ == views.subrange(0, i as int),
        decreases n - i,
    {
        let results = &run_results[i];
        let status = if results.len() == 0 {
            None
        } else {
            Some(results[0].status.classify())
        };
        seen.push(status);
        scores.push(Fraction { num: 0, den: 1 });
        i += 1;
    }
    assert(seen@ =~= views);
    match find_blamed(&seen) {
        None => {},
        Some(slot) => {
            scores.set(slot, Fraction { num: 1, den: 1 });
        },
    }
}

/// Scores one test and pushes each run's score to `scores`. `run_results`
/// holds, run by run, the records that the run holds of the test; see
/// [`test_score`] for the score.
///
/// Fails, and leaves `scores` empty, where a run holds several records of
/// the test or the test has more subtests than a score can count.
pub fn score_test_mut(run_results: &[Vec<&TestResult>], scores: &mut Vec<Fraction>) -> (done: Result<
    (),
    ScoreError,
>)
    requires
        run_results@.len() > 1,
        old(scores)@.len() == 0,
    ensures
        match done {
            Ok(()) => {
                &&& test_score(group_values(run_results@)) == Ok::<Seq<Fraction>, ScoreError>(
                    final(scores)@,
                )
                &&& final(scores)@.len() == run_results@.len()
                &&& valid_scores(final(scores)@)
            },
            Err(e) => {
                &&& test_score(group_values(run_results@)) == Err::<Seq<Fraction>, ScoreError>(e)
                &&& final(scores)@.len() == 0
            },
        },
{
    let ghost group = group_values(run_results@);
    let n = run_results.len();
    let mut have_multiple_results = false;
    let mut with_subtests: usize = 0;
    let mut i: usize = 0;
    while i < n
        invariant
            i <= n,
            n == run_results@.len(),
            group == group_values(run_results@),
            have_multiple_results <==> exists|s: int|
                0 <= s < i && (#[trigger] group[s]).len() > 1,
            with_subtests <= i,
            with_subtests == i <==> forall|s: int| 0 <= s < i ==> has_subtests(#[trigger] group[s]),
            with_subtests == 0 <==> forall|s: int| 0 <= s < i ==> !has_subtests(#[trigger] group[s]),
        decreases n - i,
    {
        let bucket = &run_results[i];
        assert(group[i as int] == values(bucket@));
        if bucket.len() > 1 {
            have_multiple_results = true;
        }
        if bucket.len() > 0 {
            if bucket[0].subtests.len() > 0 {
                with_subtests += 1;
            }
        }
        i += 1;
    }
    if have_multiple_results {
        return Err(ScoreError::MultipleResults);
    }
    if with_subtests == n {
        let mut subtests: Vec<&Vec<SubtestResult>> = Vec::new();
        let mut s: usize = 0;
        while s < n
            invariant
                s <= n,
                n == run_results@.len(),
                group == group_values(run_results@),
                all_have_subtests(group),
                subtests@.len() == s,
                forall|t: int| 0 <= t < s ==> (#[trigger] subtests@[t])@ == subtests_of(group)[t],
            decreases n - s,
        {
            let bucket = &run_results[s];
            assert(group[s as int] == values(bucket@));
            subtests.push(&bucket[0].subtests);
            s += 1;
        }
        let ghost runs = subtests_of(group);
        assert(sources(subtests@) =~= runs);
        assert(subtests@[0]@.len() > 0);
        let done = score_subtests_mut(subtests.as_slice(), scores);
        proof {
            if done is Ok {
                assert(scores@ =~= subtest_scores(runs));
                assert forall|slot: int| 0 <= slot < scores@.len() implies (#[trigger] scores@[slot]).num
                    <= scores@[slot].den && 1 <= scores@[slot].den by {
                    lemma_len_subset(names(runs).filter(blamed_in(runs, slot)), names(runs));
                }
            }
        }
        done
    } else if with_subtests > 0 {
        let mut s: usize = 0;
        while s < n
            invariant
                s <= n,
                scores@.len() == s,
                forall|t: int| 0 <= t < s ==> #[trigger] scores@[t] == (Fraction { num: 0, den: 1 }),
            decreases n - s,
        {
            scores.push(Fraction { num: 0, den: 1 });
            s += 1;
        }
        assert(scores@ =~= zero_scores(n as nat));
        Ok(())
    } else {
        score_test_no_subtest_mut(run_results, scores);
        Ok(())
    }
}

/// Scores one test: `run_results` holds, run by run, the records that the
/// run holds of the test, and the result holds each run's score. See
/// [`test_score`] for the score.
pub fn score_test(run_results: &[Vec<&TestResult>]) -> (scored: Result<Vec<Fraction>, ScoreError>)
    requires
        run_results@.len() > 1,
    ensures
        score_view(scored) == test_score(group_values(run_results@)),
        scored matches Ok(scores) ==> scores@.len() == run_results@.len() && valid_scores(
            scores@,
        ),
{
    let mut score: Vec<Fraction> = Vec::with_capacity(run_results.len());
    match score_test_mut(run_results, &mut score) {
        Ok(()) => Ok(score),
        Err(e) => Err(e),
    }
}

/// The runs agree on a unit: all pass it, or none does and none is to be
/// ignored.
pub open spec fn unanimous(seen: Seq<Option<StatusClass>>) -> bool {
    ||| forall|s: int| 0 <= s < seen.len() ==> seen[s] == Some(StatusClass::Passing)
    ||| forall|s: int| 0 <= s < seen.len() ==> is_candidate(seen[s])
}

/// Every run but `failing` passes the unit.
pub open spec fn fails_alone(seen: Seq<Option<StatusClass>>, failing: int) -> bool {
    &&& 0 <= failing < seen.len()
    &&& forall|s: int| 0 <= s < seen.len() && s != failing ==> seen[s] == Some(StatusClass::Passing)
}

/// Where several runs agree on a unit, none of them is to blame for it.
pub proof fn lemma_unanimous_no_blame(seen: Seq<Option<StatusClass>>, slot: int)
    requires
        seen.len() > 1,
        unanimous(seen),
    ensures
        !blames(seen, slot),
{
    if blames(seen, slot) {
        let other = if slot == 0 {
            1int
        } else {
            0int
        };
        assert(seen[other] == Some(StatusClass::Passing));
    }
}

/// Where one run fails or lacks a unit that every other run passes, that
/// run is to blame for it, and no other.
pub proof fn lemma_lone_failure_blamed(seen: Seq<Option<StatusClass>>, failing: int)
    requires
        fails_alone(seen, failing),
        is_candidate(seen[failing]),
    ensures
        blames(seen, failing),
        forall|slot: int| slot != failing ==> !blames(seen, slot),
{
    assert forall|slot: int| slot != failing implies !blames(seen, slot) by {
        if blames(seen, slot) {
            assert(seen[failing] == Some(StatusClass::Passing));
        }
    }
}

/// Every score of a test lies between zero and one, and a test has one
/// score for each run.
pub proof fn lemma_scores_in_unit_interval(group: Seq<Seq<TestResult>>)
    ensures
        test_score(group) matches Ok(scores) ==> scores.len() == group.len() && in_unit_interval(
            scores,
        ),
{
    let runs = subtests_of(group);
    if !has_multiple(group) && all_have_subtests(group) && countable(subtest_count(runs)) {
        lemma_names_finite(runs);
        let scores = subtest_scores(runs);
        assert forall|slot: int| 0 <= slot < scores.len() implies (#[trigger] scores[slot]).num
            <= scores[slot].den && 1 <= scores[slot].den by {
            lemma_len_subset(names(runs).filter(blamed_in(runs, slot)), names(runs));
            let id = runs[0][0].spec_id();
            assert(names(runs).contains(id));
        }
    }
}

/// A test on which several runs agree scores zero for every run: be it
/// that the runs agree on each of its subtests, or, where it has none, on
/// its own status.
pub proof fn lemma_unanimous_scores_zero(group: Seq<Seq<TestResult>>)
    requires
        group.len() > 1,
        all_have_subtests(group) ==> forall|id: Seq<char>| #[trigger]
            occurs(subtests_of(group), id) ==> unanimous(
                subtest_views(group_of(subtests_of(group), id)),
            ),
        !some_have_subtests(group) ==> unanimous(test_views(group)),
    ensures
        test_score(group) matches Ok(scores) ==> forall|slot: int|
            0 <= slot < scores.len() ==> (#[trigger] scores[slot]).num == 0,
{
    let runs = subtests_of(group);
    if all_have_subtests(group) {
        let scores = subtest_scores(runs);
        assert forall|slot: int| 0 <= slot < scores.len() implies (#[trigger] scores[slot]).num
            == 0 by {
            assert forall|id: Seq<char>| !names(runs).filter(blamed_in(runs, slot)).contains(
                id,
            ) by {
                if occurs(runs, id) {
                    lemma_unanimous_no_blame(subtest_views(group_of(runs, id)), slot);
                }
            }
            assert(names(runs).filter(blamed_in(runs, slot)) =~= Set::<Seq<char>>::empty());
        }
    } else if !some_have_subtests(group) {
        let scores = status_scores(group);
        assert forall|slot: int| 0 <= slot < scores.len() implies (#[trigger] scores[slot]).num
            == 0 by {
            lemma_unanimous_no_blame(test_views(group), slot);
        }
    }
}

/// A test that one run fails while every other run passes it scores above
/// zero for that run and zero for every other run. With subtests: every
/// other run passes every subtest, and the run does not pass at least one
/// of them that it was not to skip. Without: every other run passes the
/// test, and the run fails or lacks it.
pub proof fn lemma_lone_failure_scores(group: Seq<Seq<TestResult>>, failing: int)
    requires
        group.len() > 1,
        0 <= failing < group.len(),
        all_have_subtests(group) || !some_have_subtests(group),
        all_have_subtests(group) ==> {
            &&& forall|id: Seq<char>| #[trigger]
                occurs(subtests_of(group), id) ==> fails_alone(
                    subtest_views(group_of(subtests_of(group), id)),
                    failing,
                )
            &&& exists|id: Seq<char>| #[trigger]
                occurs(subtests_of(group), id) && is_candidate(
                    subtest_views(group_of(subtests_of(group), id))[failing],
                )
        },
        !some_have_subtests(group) ==> fails_alone(test_views(group), failing) && is_candidate(
            test_views(group)[failing],
        ),
    ensures
        test_score(group) matches Ok(scores) ==> {
            &&& scores[failing].num > 0
            &&& forall|slot: int|
                0 <= slot < scores.len() && slot != failing ==> (#[trigger] scores[slot]).num == 0
        },
{
    let runs = subtests_of(group);
    if !has_multiple(group) && all_have_subtests(group) && countable(subtest_count(runs)) {
        let scores = subtest_scores(runs);
        lemma_names_finite(runs);
        let id = choose|id: Seq<char>| #[trigger]
            occurs(runs, id) && is_candidate(subtest_views(group_of(runs, id))[failing]);
        let blamed = names(runs).filter(blamed_in(runs, failing));
        assert(blamed.contains(id));
        lemma_len_subset(blamed, names(runs));
        assert forall|slot: int| 0 <= slot < scores.len() && slot != failing implies (
        #[trigger] scores[slot]).num == 0 by {
            assert(names(runs).filter(blamed_in(runs, slot)) =~= Set::<Seq<char>>::empty());
        }
    }
}

/// Run by run, the tests that the run reports.
pub open spec fn report_results(runs: Seq<WptReport>) -> Seq<Seq<TestResult>> {
    runs.map_values(|run: WptReport| run.results@)
}

/// The identifiers of scored tests, in the order of the scores.
pub open spec fn scored_ids(
    scored: Seq<(&str, Result<Vec<Fraction>, ScoreError>)>,
) -> Seq<Seq<char>> {
    scored.map_values(|entry: (&str, Result<Vec<Fraction>, ScoreError>)| entry.0@)
}

/// Every entry that holds scores holds valid scores for `width` runs.
pub open spec fn well_scored(
    scored: Seq<(&str, Result<Vec<Fraction>, ScoreError>)>,
    width: nat,
) -> bool {
    forall|i: int|
        0 <= i < scored.len() ==> ((#[trigger] scored[i]).1 matches Ok(scores) ==> scores@.len()
            == width && valid_scores(scores@))
}

/// Scores every test of the runs. The result holds one entry for each test
/// that any run reports, in ascending order of the tests' identifiers: the
/// identifier, and the scores of the test or the reason why it has none.
/// The runs are lined up test by test first, so the score of a test is that
/// of the records that the runs hold under its identifier.
pub fn score_runs<'a>(runs: &'a [WptReport]) -> (scored: Vec<
    (&'a str, Result<Vec<Fraction>, ScoreError>),
>)
    requires
        runs@.len() > 1,
    ensures
        ascending(scored_ids(scored@)),
        scored_ids(scored@).to_set() == names(report_results(runs@)),
        forall|i: int|
            0 <= i < scored@.len() ==> score_view((#[trigger] scored@[i]).1) == test_score(
                group_of(report_results(runs@), scored@[i].0@),
            ),
        well_scored(scored@, runs@.len()),
{
    let n = runs.len();
    let ghost tests = report_results(runs@);
    let mut results: Vec<&'a Vec<TestResult>> = Vec::new();
    let mut i: usize = 0;
    while i < n
        invariant
            i <= n,
            n == runs@.len(),
            results@.len() == i,
            forall|t: int| 0 <= t < i ==> (#[trigger] results@[t])@ == runs@[t].results@,
        decreases n - i,
    {
        results.push(&runs[i].results);
        i += 1;
    }
    let mut aligned = AlignedResults::new(results.as_slice());
    let mut scored: Vec<(&'a str, Result<Vec<Fraction>, ScoreError>)> = Vec::new();
    loop
        invariant
            tests.len() > 1,
            aligned.wf(),
            aligned.source() == tests,
            walked(tests, aligned.last(), scored_ids(scored@)),
            forall|i: int|
                0 <= i < scored@.len() ==> score_view((#[trigger] scored@[i]).1) == test_score(
                    group_of(tests, scored@[i].0@),
                ),
            well_scored(scored@, tests.len()),
        ensures
            well_scored(scored@, tests.len()),
            walked(tests, aligned.last(), scored_ids(scored@)),
            forall|id: Seq<char>| #[trigger] occurs(tests, id) ==> !above(aligned.last(), id),
            forall|i: int|
                0 <= i < scored@.len() ==> score_view((#[trigger] scored@[i]).1) == test_score(
                    group_of(tests, scored@[i].0@),
                ),
        decreases aligned.remaining(),
    {
        let ghost last = aligned.last();
        let ghost ids = scored_ids(scored@);
        match aligned.next() {
            None => {
                break ;
            },
            Some((id, buckets)) => {
                let score = score_test(buckets.as_slice());
                proof {
                    lemma_walk_step(tests, last, ids, id@);
                    assert(group_values(buckets@) =~= group_of(tests, id@));
                }
                scored.push((id, score));
                assert(scored_ids(scored@) =~= ids.push(id@));
            },
        }
    }
    scored
}

/// Tells whether the scored tests are such as [`score_runs`] gives them:
/// all tests that have scores have valid scores (see [`valid_scores`]),
/// and for the same number of runs.
pub fn scores_are_valid(tests_scores: &[(&str, Result<Vec<Fraction>, ScoreError>)]) -> (valid: bool)
    ensures
        valid <==> exists|width: nat| well_scored(tests_scores@, width),
        valid ==> uniform_width(tests_scores@),
{
    let ghost scored = tests_scores@;
    let n = tests_scores.len();
    let mut width: Option<usize> = None;
    let mut i: usize = 0;
    while i < n
        invariant
            scored == tests_scores@,
            n == scored.len(),
            i <= n,
            width is None ==> forall|t: int| 0 <= t < i ==> (#[trigger] scored[t]).1 is Err,
            width matches Some(w) ==> well_scored(scored.take(i as int), w as nat) && exists|
                t: int,
            |
                0 <= t < i && (#[trigger] scored[t]).1 is Ok && scored[t].1->Ok_0@.len() == w,
        decreases n - i,
    {
        match &tests_scores[i].1 {
            Err(_) => {},
            Ok(scores) => {
                let mut valid = match width {
                    None => true,
                    Some(w) => scores.len() == w,
                };
                let mut slot: usize = 0;
                while slot < scores.len()
                    invariant
                        slot <= scores@.len(),
                        valid && width is Some ==> scores@.len() == width->0,
                        valid ==> forall|t: int|
                            0 <= t < slot ==> (#[trigger] scores@[t]).num <= scores@[t].den && 1
                                <= scores@[t].den <= MAX_EXACT_COUNT,
                        !valid ==> (width matches Some(w) && scores@.len() != w) || !valid_scores(
                            scores@,
                        ),
                    decreases scores@.len() - slot,
                {
                    let score = scores[slot];
                    if score.num > score.den || score.den < 1 || score.den as u64
                        > MAX_EXACT_COUNT {
                        valid = false;
                    }
                    slot += 1;
                }
                if !valid {
                    return false;
                }
                width = Some(scores.len());
            },
        }
        i += 1;
    }
    proof {
        assert(scored.take(n as int) =~= scored);
        if width is None {
            assert(well_scored(scored, 0));
        }
    }
    true
}

/// Every entry that holds scores holds them for `width` runs.
pub open spec fn same_width(
    scored: Seq<(&str, Result<Vec<Fraction>, ScoreError>)>,
    width: nat,
) -> bool {
    forall|i: int|
        0 <= i < scored.len() ==> ((#[trigger] scored[i]).1 matches Ok(scores) ==> scores@.len()
            == width)
}

/// All entries that hold scores hold them for the same number of runs.
pub open spec fn uniform_width(scored: Seq<(&str, Result<Vec<Fraction>, ScoreError>)>) -> bool {
    forall|i: int, j: int|
        0 <= i < scored.len() && 0 <= j < scored.len() ==> ((#[trigger] scored[i]).1 matches Ok(
            a,
        ) ==> ((#[trigger] scored[j]).1 matches Ok(b) ==> a@.len() == b@.len()))
}

/// The number of runs that the entries hold scores for: that of an entry
/// with scores, or none where no entry has scores.
pub open spec fn common_width(scored: Seq<(&str, Result<Vec<Fraction>, ScoreError>)>) -> nat {
    if exists|i: int| 0 <= i < scored.len() && (#[trigger] scored[i]).1 is Ok {
        let i = choose|i: int| 0 <= i < scored.len() && (#[trigger] scored[i]).1 is Ok;
        scored[i].1->Ok_0@.len()
    } else {
        0
    }
}

/// Finds the error of the first test that has no scores.
fn find_first_error(tests_scores: &[(&str, Result<Vec<Fraction>, ScoreError>)]) -> (found: Option<
    ScoreError,
>)
    ensures
        found == first_error(tests_scores@),
{
    let ghost scored = tests_scores@;
    let n = tests_scores.len();
    let mut i: usize = 0;
    while i < n
        invariant
            scored == tests_scores@,
            n == scored.len(),
            i <= n,
            first_error(scored.take(i as int)) is None,
        decreases n - i,
    {
        proof {
            assert(scored.take(i + 1).drop_last() =~= scored.take(i as int));
        }
        match &tests_scores[i].1 {
            Err(e) => {
                proof {
                    lemma_first_error_prefix(scored, i + 1);
                }
                return Some(*e);
            },
            Ok(_) => {},
        }
        i += 1;
    }
    proof {
        assert(scored.take(n as int) =~= scored);
    }
    None
}

/// Adds up the scores of all tests, run by run: the result holds one sum
/// for each run, to which every test adds the run's score.
///
/// Fails with the error of the first test that has no scores, if there is
/// one. Else fails with [`ScoreError::NoScores`] where there is no test,
/// or no run, to add up, and with [`ScoreError::TooManySubtests`] where a
/// sum holds more parts of a whole than can be counted.
pub fn score_runs_total(tests_scores: &[(&str, Result<Vec<Fraction>, ScoreError>)]) -> (total:
    Result<Vec<ExactSum>, ScoreError>)
    requires
        uniform_width(tests_scores@),
    ensures
        match total {
            Ok(sums) => {
                &&& first_error(tests_scores@) is None
                &&& tests_scores@.len() > 0
                &&& sums@.len() > 0
                &&& same_width(tests_scores@, sums@.len() as nat)
                &&& sums_in_order(sums@)
                &&& forall|slot: int, den: int| #[trigger]
                    sum_parts(sums@, slot, den) == column_parts(tests_scores@, slot, den)
                &&& forall|slot: int, den: int| #[trigger]
                    column_parts(tests_scores@, slot, den) <= u128::MAX
            },
            Err(e) => match first_error(tests_scores@) {
                Some(first) => e == first,
                None => {
                    ||| e == ScoreError::NoScores && (tests_scores@.len() == 0 || same_width(
                        tests_scores@,
                        0,
                    ))
                    ||| e == ScoreError::TooManySubtests && exists|slot: int, den: int| #[trigger]
                        column_parts(tests_scores@, slot, den) > u128::MAX
                },
            },
        },
{
    let ghost scored = tests_scores@;
    let ghost width = common_width(scored);
    match find_first_error(tests_scores) {
        Some(e) => {
            return Err(e);
        },
        None => {},
    }
    proof {
        lemma_first_error(scored);
    }
    let n = tests_scores.len();
    let mut runs_totals: Vec<ExactSum> = Vec::new();
    let mut i: usize = 0;
    while i < n
        invariant
            scored == tests_scores@,
            n == scored.len(),
            i <= n,
            same_width(scored, width),
            first_error(scored) is None,
            forall|t: int| 0 <= t < scored.len() ==> (#[trigger] scored[t]).1 is Ok,
            i == 0 ==> runs_totals@.len() == 0,
            i > 0 ==> runs_totals@.len() == width,
            sums_in_order(runs_totals@),
            forall|slot: int, den: int| #[trigger]
                sum_parts(runs_totals@, slot, den) == column_parts(
                    scored.take(i as int),
                    slot,
                    den,
                ),
        decreases n - i,
    {
        match &tests_scores[i].1 {
            Err(_) => {},
            Ok(scores) => {
                let ghost before = runs_totals@;
                let done = add_scores(&mut runs_totals, scores.as_slice());
                proof {
                    assert forall|slot: int, den: int|
                        column_parts(scored.take(i + 1), slot, den) == #[trigger] sum_parts(
                            before,
                            slot,
                            den,
                        ) + scores_parts(scores@, slot, den) by {
                        lemma_seq_sum_step(scored, column_term(slot, den), i as int);
                    }
                }
                match done {
                    Ok(()) => {},
                    Err(e) => {
                        proof {
                            let slot = choose|slot: int|
                                0 <= slot < scores@.len() && sum_parts(
                                    before,
                                    slot,
                                    (#[trigger] scores@[slot]).den as int,
                                ) + scores@[slot].num > u128::MAX;
                            let den = scores@[slot].den as int;
                            lemma_seq_sum_prefix(scored, column_term(slot, den), i + 1);
                            assert(column_parts(scored, slot, den) > u128::MAX);
                        }
                        return Err(e);
                    },
                }
            },
        }
        i += 1;
    }
    proof {
        assert(scored.take(n as int) =~= scored);
        assert forall|slot: int, den: int| #[trigger]
            column_parts(scored, slot, den) <= u128::MAX by {
            assert(sum_parts(runs_totals@, slot, den) == column_parts(scored, slot, den));
            if 0 <= slot < runs_totals@.len() {
                lemma_parts_fit(runs_totals@[slot].spec_terms(), den);
            }
        }
    }
    if runs_totals.len() == 0 {
        return Err(ScoreError::NoScores);
    }
    Ok(runs_totals)
}

/// Adds up the scores of all tests by directory: every test adds its
/// scores, run by run, to the sums of each directory that it counts for
/// (see [`dir_keys`]): with `recursive` to every directory that holds it,
/// without to the nearest one alone.
///
/// Fails with the error of the first test that has no scores, if there is
/// one. Else fails with [`ScoreError::NoScores`] where there is no test to
/// add up, and with [`ScoreError::TooManySubtests`] where a sum holds more
/// parts of a whole than can be counted.
pub fn score_runs_by_dir(
    tests_scores: &[(&str, Result<Vec<Fraction>, ScoreError>)],
    recursive: bool,
) -> (by_dir: Result<DirTotals, ScoreError>)
    requires
        uniform_width(tests_scores@),
    ensures
        match by_dir {
            Ok(dirs) => {
                &&& first_error(tests_scores@) is None
                &&& tests_scores@.len() > 0
                &&& dirs.wf()
                &&& forall|key: Seq<char>| #[trigger]
                    dirs.contains(key) <==> in_some_dir(tests_scores@, recursive, key)
                &&& forall|key: Seq<char>| #[trigger]
                    dirs.contains(key) ==> same_width(tests_scores@, dirs.width(key))
                &&& forall|key: Seq<char>, slot: int, den: int| #[trigger]
                    dirs.parts(key, slot, den) == dir_parts(
                        tests_scores@,
                        recursive,
                        key,
                        slot,
                        den,
                    )
                &&& forall|key: Seq<char>, slot: int, den: int| #[trigger]
                    dir_parts(tests_scores@, recursive, key, slot, den) <= u128::MAX
            },
            Err(e) => match first_error(tests_scores@) {
                Some(first) => e == first,
                None => {
                    ||| e == ScoreError::NoScores && tests_scores@.len() == 0
                    ||| e == ScoreError::TooManySubtests && tests_scores@.len() > 0 && exists|
                        key: Seq<char>,
                        slot: int,
                        den: int,
                    | #[trigger] dir_parts(tests_scores@, recursive, key, slot, den) > u128::MAX
                },
            },
        },
{
    let ghost scored = tests_scores@;
    let ghost width = common_width(scored);
    match find_first_error(tests_scores) {
        Some(e) => {
            return Err(e);
        },
        None => {},
    }
    proof {
        lemma_first_error(scored);
    }
    let n = tests_scores.len();
    if n == 0 {
        return Err(ScoreError::NoScores);
    }
    let mut dir_scores = DirTotals::new();
    let mut i: usize = 0;
    while i < n
        invariant
            scored == tests_scores@,
            n == scored.len(),
            i <= n,
            same_width(scored, width),
            forall|t: int| 0 <= t < scored.len() ==> (#[trigger] scored[t]).1 is Ok,
            first_error(scored) is None,
            dir_scores.wf(),
            forall|key: Seq<char>| #[trigger]
                dir_scores.contains(key) <==> in_some_dir(scored.take(i as int), recursive, key),
            forall|key: Seq<char>| #[trigger]
                dir_scores.contains(key) ==> dir_scores.width(key) == width,
            forall|key: Seq<char>, slot: int, den: int| #[trigger]
                dir_scores.parts(key, slot, den) == dir_parts(
                    scored.take(i as int),
                    recursive,
                    key,
                    slot,
                    den,
                ),
        decreases n - i,
    {
        let test: &str = tests_scores[i].0;
        let keys = directory_keys(test, recursive);
        let ghost names = dir_keys(test@, recursive);
        let ghost entry = scored[i as int];
        match &tests_scores[i].1 {
            Err(_) => {},
            Ok(scores) => {
                let mut j: usize = 0;
                proof {
                    names.take(0).to_multiset_ensures();
                    assert forall|key: Seq<char>| #[trigger]
                        names.take(0).to_multiset().count(key) == 0 by {
                        assert(!names.take(0).contains(key));
                    }
                    assert forall|key: Seq<char>| !(#[trigger] names.take(0).contains(key)) by {
                        assert(names.take(0).len() == 0);
                    }
                }
                while j < keys.len()
                    invariant
                        scored == tests_scores@,
                        i < scored.len(),
                        entry == scored[i as int],
                        entry.1 == Ok::<Vec<Fraction>, ScoreError>(*scores),
                        first_error(scored) is None,
                        scores@.len() == width,
                        names == key_views(keys@),
                        names == dir_keys(entry.0@, recursive),
                        names.len() == keys@.len(),
                        j <= keys@.len(),
                        dir_scores.wf(),
                        forall|key: Seq<char>| #[trigger]
                            dir_scores.contains(key) <==> in_some_dir(
                                scored.take(i as int),
                                recursive,
                                key,
                            ) || names.take(j as int).contains(key),
                        forall|key: Seq<char>| #[trigger]
                            dir_scores.contains(key) ==> dir_scores.width(key) == width,
                        forall|key: Seq<char>, slot: int, den: int| #[trigger]
                            dir_scores.parts(key, slot, den) == dir_parts(
                                scored.take(i as int),
                                recursive,
                                key,
                                slot,
                                den,
                            ) + names.take(j as int).to_multiset().count(key) * entry_parts(
                                entry.1,
                                slot,
                                den,
                            ),
                    decreases keys@.len() - j,
                {
                    let key: &str = keys[j];
                    let ghost before = dir_scores;
                    let done = dir_scores.add(key, scores.as_slice());
                    match done {
                        Ok(()) => {},
                        Err(e) => {
                            proof {
                                let slot = choose|slot: int|
                                    0 <= slot < scores@.len() && before.parts(
                                        key@,
                                        slot,
                                        (#[trigger] scores@[slot]).den as int,
                                    ) + scores@[slot].num > u128::MAX;
                                let den = scores@[slot].den as int;
                                let times = names.take(j as int).to_multiset().count(key@);
                                let all = names.to_multiset().count(key@);
                                let each = entry_parts(entry.1, slot, den);
                                lemma_count_step(names, j as int, key@);
                                lemma_count_prefix(names, j + 1, key@);
                                assert(times * each + each <= all * each) by (nonlinear_arith)
                                    requires
                                        times + 1 <= all,
                                        0 <= each,
                                ;
                                lemma_seq_sum_step(
                                    scored,
                                    dir_term(recursive, key@, slot, den),
                                    i as int,
                                );
                                lemma_seq_sum_prefix(
                                    scored,
                                    dir_term(recursive, key@, slot, den),
                                    i + 1,
                                );
                                assert(dir_parts(scored, recursive, key@, slot, den) > u128::MAX);
                            }
                            return Err(e);
                        },
                    }
                    proof {
                        assert forall|k: Seq<char>| #[trigger]
                            dir_scores.contains(k) <==> in_some_dir(
                                scored.take(i as int),
                                recursive,
                                k,
                            ) || names.take(j + 1).contains(k) by {
                            lemma_count_step(names, j as int, k);
                        }
                        assert forall|k: Seq<char>, slot: int, den: int| #[trigger]
                            dir_scores.parts(k, slot, den) == dir_parts(
                                scored.take(i as int),
                                recursive,
                                k,
                                slot,
                                den,
                            ) + names.take(j + 1).to_multiset().count(k) * entry_parts(
                                entry.1,
                                slot,
                                den,
                            ) by {
                            lemma_count_step(names, j as int, k);
                            let times = names.take(j as int).to_multiset().count(k);
                            let each = entry_parts(entry.1, slot, den);
                            assert(before.parts(k, slot, den) == dir_parts(
                                scored.take(i as int),
                                recursive,
                                k,
                                slot,
                                den,
                            ) + times * each);
                            if k == key@ {
                                assert((times + 1) * each == times * each + each)
                                    by (nonlinear_arith);
                            }
                        }
                    }
                    j += 1;
                }
                proof {
                    assert(names.take(keys@.len() as int) =~= names);
                    assert forall|k: Seq<char>| #[trigger]
                        dir_scores.contains(k) <==> in_some_dir(
                            scored.take(i + 1),
                            recursive,
                            k,
                        ) by {
                        lemma_in_some_dir_step(scored, recursive, i as int, k);
                    }
                    assert forall|k: Seq<char>, slot: int, den: int| #[trigger]
                        dir_scores.parts(k, slot, den) == dir_parts(
                            scored.take(i + 1),
                            recursive,
                            k,
                            slot,
                            den,
                        ) by {
                        lemma_seq_sum_step(scored, dir_term(recursive, k, slot, den), i as int);
                    }
                }
            },
        }
        i += 1;
    }
    proof {
        assert(scored.take(n as int) =~= scored);
        assert forall|key: Seq<char>, slot: int, den: int| #[trigger]
            dir_parts(scored, recursive, key, slot, den) <= u128::MAX by {
            assert(dir_scores.parts(key, slot, den) == dir_parts(
                scored,
                recursive,
                key,
                slot,
                den,
            ));
            let sums = dir_scores.sums(key);
            if 0 <= slot < sums.len() {
                lemma_parts_fit(sums[slot].spec_terms(), den);
            }
        }
    }
    Ok(dir_scores)
}

} // verus!
