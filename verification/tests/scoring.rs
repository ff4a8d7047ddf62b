use wpt_data::bsf::{score_subtest_mut, score_subtests_mut, Fraction};
use wpt_data::wptreport::{SubtestResult, SubtestStatus};

fn subtest(name: &str, status: SubtestStatus) -> SubtestResult {
    SubtestResult {
        name: name.to_string(),
        status,
        expected: None,
        known_intermittent: None,
        message: None,
    }
}

fn score_subtest_new(results: &[Option<&SubtestResult>]) -> Vec<usize> {
    let r_vec: Vec<Vec<&SubtestResult>> = results
        .iter()
        .map(|r| match r {
            None => vec![],
            Some(s) => vec![*s],
        })
        .collect();

    let mut subtest_total = [0].repeat(results.len());
    score_subtest_mut(&r_vec, &mut subtest_total);
    subtest_total
}

fn as_floats(scores: &[Fraction]) -> Vec<f64> {
    scores.iter().map(|s| s.num as f64 / s.den as f64).collect()
}

#[test]
fn test_score_subtest() {
    let result_fail = subtest("Test", SubtestStatus::FAIL);
    let result_pass = subtest("Test", SubtestStatus::PASS);

    assert_eq!(
        vec![0, 0],
        score_subtest_new(&[Some(&result_pass), Some(&result_pass)])
    );
    assert_eq!(
        vec![0, 0],
        score_subtest_new(&[Some(&result_fail), Some(&result_fail)])
    );
    assert_eq!(
        vec![1, 0],
        score_subtest_new(&[Some(&result_fail), Some(&result_pass)])
    );
    assert_eq!(
        vec![0, 1],
        score_subtest_new(&[Some(&result_pass), Some(&result_fail)])
    );
}

fn score_subtests_new(results: &[&Vec<SubtestResult>]) -> Vec<f64> {
    let mut total = vec![];
    score_subtests_mut(results, &mut total).expect("Scoring must succeed");
    as_floats(&total)
}

#[test]
fn test_score_subtests() {
    let result1_fail = subtest("Test1", SubtestStatus::FAIL);
    let result1_pass = subtest("Test1", SubtestStatus::PASS);
    let _result2_fail = subtest("Test2", SubtestStatus::FAIL);
    let result2_pass = subtest("Test2", SubtestStatus::PASS);

    let subtest_results_pass = vec![result1_pass, result2_pass.clone()];
    let subtest_results_fail = vec![result1_fail, result2_pass];

    let run_subtests: Vec<_> = vec![&subtest_results_fail, &subtest_results_pass];

    let scored = score_subtests_new(&run_subtests);

    assert_eq!(vec![0.5, 0.0], scored,);
}

use wpt_data::bsf::{
    score_runs, score_test, score_test_mut, score_test_no_subtest_mut, ScoreError,
};
use wpt_data::wptreport::{StatusClass, TestResult, TestStatus, WptReport};

fn test_with(id: &str, status: TestStatus, subtests: Vec<SubtestResult>) -> TestResult {
    TestResult {
        test: id.to_string(),
        subtests,
        status,
        expected: None,
        known_intermittent: None,
        message: None,
        duration: None,
        asserts: None,
        reftest_screenshots: None,
    }
}

fn report(results: Vec<TestResult>) -> WptReport {
    WptReport {
        run_info: serde_json::Value::Null,
        time_start: 0,
        time_end: 0,
        results,
        lsan_leaks: None,
        mozleak: None,
    }
}

fn whole(num: usize) -> Fraction {
    Fraction { num, den: 1 }
}

fn score_statuses(statuses: &[Option<TestStatus>]) -> Result<Vec<Fraction>, ScoreError> {
    let records: Vec<Option<TestResult>> = statuses
        .iter()
        .map(|s| s.map(|status| test_with("/t.html", status, vec![])))
        .collect();
    let group: Vec<Vec<&TestResult>> = records.iter().map(|r| r.iter().collect()).collect();
    score_test(&group)
}

#[test]
fn statuses_fall_into_three_classes() {
    assert_eq!(TestStatus::PASS.classify(), StatusClass::Passing);
    assert_eq!(TestStatus::OK.classify(), StatusClass::Passing);
    assert_eq!(TestStatus::ASSERT.classify(), StatusClass::Passing);
    assert_eq!(TestStatus::FAIL.classify(), StatusClass::Failing);
    assert_eq!(TestStatus::ERROR.classify(), StatusClass::Failing);
    assert_eq!(TestStatus::TIMEOUT.classify(), StatusClass::Failing);
    assert_eq!(TestStatus::CRASH.classify(), StatusClass::Failing);
    assert_eq!(TestStatus::SKIP.classify(), StatusClass::Ignore);
    assert_eq!(
        TestStatus::PRECONDITION_FAILED.classify(),
        StatusClass::Ignore
    );
    assert_eq!(SubtestStatus::PASS.classify(), StatusClass::Passing);
    assert_eq!(SubtestStatus::ASSERT.classify(), StatusClass::Passing);
    assert_eq!(SubtestStatus::FAIL.classify(), StatusClass::Failing);
    assert_eq!(SubtestStatus::ERROR.classify(), StatusClass::Failing);
    assert_eq!(SubtestStatus::TIMEOUT.classify(), StatusClass::Failing);
    assert_eq!(SubtestStatus::NOTRUN.classify(), StatusClass::Failing);
    assert_eq!(SubtestStatus::SKIP.classify(), StatusClass::Ignore);
    assert_eq!(
        SubtestStatus::PRECONDITION_FAILED.classify(),
        StatusClass::Ignore
    );
}

#[test]
fn a_missing_subtest_counts_as_a_failure() {
    let pass = subtest("Test", SubtestStatus::PASS);
    assert_eq!(vec![1, 0], score_subtest_new(&[None, Some(&pass)]));
    assert_eq!(vec![0, 1, 0], score_subtest_new(&[Some(&pass), None, Some(&pass)]));
    assert_eq!(vec![0, 0], score_subtest_new(&[None, None]));
}

#[test]
fn a_skipped_subtest_blames_nobody() {
    let pass = subtest("Test", SubtestStatus::PASS);
    let fail = subtest("Test", SubtestStatus::FAIL);
    let skip = subtest("Test", SubtestStatus::SKIP);
    let precondition = subtest("Test", SubtestStatus::PRECONDITION_FAILED);
    assert_eq!(
        vec![0, 0, 0],
        score_subtest_new(&[Some(&fail), Some(&pass), Some(&skip)])
    );
    assert_eq!(
        vec![0, 0, 0],
        score_subtest_new(&[Some(&precondition), Some(&pass), Some(&fail)])
    );
}

#[test]
fn two_failures_blame_nobody() {
    let pass = subtest("Test", SubtestStatus::PASS);
    let fail = subtest("Test", SubtestStatus::FAIL);
    let timeout = subtest("Test", SubtestStatus::TIMEOUT);
    assert_eq!(
        vec![0, 0, 0],
        score_subtest_new(&[Some(&fail), Some(&pass), Some(&timeout)])
    );
}

#[test]
fn blame_is_added_to_what_the_scores_hold() {
    let pass = subtest("Test", SubtestStatus::PASS);
    let fail = subtest("Test", SubtestStatus::NOTRUN);
    let buckets = vec![vec![&pass], vec![&fail], vec![&pass]];
    let mut scores = vec![4, 7, 9];
    score_subtest_mut(&buckets, &mut scores);
    assert_eq!(scores, vec![4, 8, 9]);
}

#[test]
fn only_the_blamed_count_has_to_have_room() {
    let pass = subtest("Test", SubtestStatus::PASS);
    let fail = subtest("Test", SubtestStatus::FAIL);
    let buckets = vec![vec![&pass], vec![&fail], vec![&pass]];
    let mut scores = vec![usize::MAX, usize::MAX - 1, usize::MAX];
    score_subtest_mut(&buckets, &mut scores);
    assert_eq!(scores, vec![usize::MAX, usize::MAX, usize::MAX]);
}

#[test]
fn runs_that_agree_leave_the_counts_as_they_are() {
    let pass = subtest("Test", SubtestStatus::PASS);
    let assert_ok = subtest("Test", SubtestStatus::ASSERT);
    let fail = subtest("Test", SubtestStatus::FAIL);
    let not_run = subtest("Test", SubtestStatus::NOTRUN);
    let timeout = subtest("Test", SubtestStatus::TIMEOUT);
    let mut scores = vec![usize::MAX, 0, 7];
    score_subtest_mut(&[vec![&pass], vec![&assert_ok], vec![&pass]], &mut scores);
    assert_eq!(scores, vec![usize::MAX, 0, 7]);
    score_subtest_mut(&[vec![&fail], vec![&not_run], vec![&timeout]], &mut scores);
    assert_eq!(scores, vec![usize::MAX, 0, 7]);
}

#[test]
fn the_first_record_of_a_bucket_is_the_one_that_counts() {
    let pass = subtest("Test", SubtestStatus::PASS);
    let fail = subtest("Test", SubtestStatus::FAIL);
    let buckets = vec![vec![&fail, &pass], vec![&pass, &fail]];
    let mut scores = vec![0, 0];
    score_subtest_mut(&buckets, &mut scores);
    assert_eq!(scores, vec![1, 0]);
}

#[test]
fn three_runs_two_subtests() {
    let run1 = test_with(
        "/t.html",
        TestStatus::OK,
        vec![
            subtest("s1", SubtestStatus::FAIL),
            subtest("s2", SubtestStatus::FAIL),
        ],
    );
    let run2 = test_with(
        "/t.html",
        TestStatus::OK,
        vec![
            subtest("s1", SubtestStatus::PASS),
            subtest("s2", SubtestStatus::FAIL),
        ],
    );
    let run3 = run2.clone();
    let group = vec![vec![&run1], vec![&run2], vec![&run3]];
    let scores = score_test(&group).expect("scores");
    assert_eq!(
        scores,
        vec![
            Fraction { num: 1, den: 2 },
            Fraction { num: 0, den: 2 },
            Fraction { num: 0, den: 2 }
        ]
    );
    assert_eq!(as_floats(&scores), vec![0.5, 0.0, 0.0]);
}

#[test]
fn subtests_are_matched_by_name_not_by_place() {
    let run1 = vec![
        subtest("b", SubtestStatus::PASS),
        subtest("a", SubtestStatus::FAIL),
        subtest("c", SubtestStatus::PASS),
    ];
    let run2 = vec![
        subtest("a", SubtestStatus::PASS),
        subtest("c", SubtestStatus::ERROR),
        subtest("d", SubtestStatus::PASS),
    ];
    let mut scores = vec![];
    score_subtests_mut(&[&run1, &run2], &mut scores).expect("scores");
    assert_eq!(
        scores,
        vec![Fraction { num: 2, den: 4 }, Fraction { num: 2, den: 4 }]
    );
}

#[test]
fn a_test_without_subtests_is_scored_by_its_status() {
    assert_eq!(
        score_statuses(&[Some(TestStatus::OK), Some(TestStatus::CRASH)]),
        Ok(vec![whole(0), whole(1)])
    );
    assert_eq!(
        score_statuses(&[
            Some(TestStatus::TIMEOUT),
            Some(TestStatus::PASS),
            Some(TestStatus::ASSERT)
        ]),
        Ok(vec![whole(1), whole(0), whole(0)])
    );
    assert_eq!(
        score_statuses(&[Some(TestStatus::FAIL), Some(TestStatus::ERROR)]),
        Ok(vec![whole(0), whole(0)])
    );
    assert_eq!(
        score_statuses(&[Some(TestStatus::PASS), Some(TestStatus::OK)]),
        Ok(vec![whole(0), whole(0)])
    );
}

#[test]
fn a_run_without_the_test_counts_as_failing_it() {
    assert_eq!(
        score_statuses(&[Some(TestStatus::OK), None, Some(TestStatus::PASS)]),
        Ok(vec![whole(0), whole(1), whole(0)])
    );
    assert_eq!(
        score_statuses(&[Some(TestStatus::FAIL), None]),
        Ok(vec![whole(0), whole(0)])
    );
}

#[test]
fn a_skipped_test_blames_nobody() {
    assert_eq!(
        score_statuses(&[Some(TestStatus::SKIP), Some(TestStatus::FAIL)]),
        Ok(vec![whole(0), whole(0)])
    );
    assert_eq!(
        score_statuses(&[
            Some(TestStatus::PASS),
            Some(TestStatus::FAIL),
            Some(TestStatus::PRECONDITION_FAILED)
        ]),
        Ok(vec![whole(0), whole(0), whole(0)])
    );
}

#[test]
fn score_test_no_subtest_mut_fills_empty_scores() {
    let ok = test_with("/t.html", TestStatus::OK, vec![]);
    let error = test_with("/t.html", TestStatus::ERROR, vec![]);
    let group = vec![vec![&ok], vec![&ok], vec![&error]];
    let mut scores = vec![];
    score_test_no_subtest_mut(&group, &mut scores);
    assert_eq!(scores, vec![whole(0), whole(0), whole(1)]);
}

#[test]
fn subtests_in_some_runs_only_score_zero() {
    let with = test_with(
        "/t.html",
        TestStatus::OK,
        vec![subtest("s", SubtestStatus::FAIL)],
    );
    let without = test_with("/t.html", TestStatus::OK, vec![]);
    let group = vec![vec![&with], vec![&without], vec![]];
    assert_eq!(score_test(&group), Ok(vec![whole(0), whole(0), whole(0)]));
    let lacking = vec![vec![&with], vec![]];
    assert_eq!(score_test(&lacking), Ok(vec![whole(0), whole(0)]));
}

#[test]
fn several_records_of_one_test_are_an_error() {
    let ok = test_with("x", TestStatus::OK, vec![]);
    let fail = test_with("x", TestStatus::FAIL, vec![]);
    let group = vec![vec![&ok, &fail], vec![&ok]];
    assert_eq!(score_test(&group), Err(ScoreError::MultipleResults));
    let mut scores = vec![];
    assert_eq!(
        score_test_mut(&group, &mut scores),
        Err(ScoreError::MultipleResults)
    );
    assert!(scores.is_empty());
}

#[test]
fn errors_have_their_messages() {
    assert_eq!(
        ScoreError::MultipleResults.message(),
        "have multiple results for a single test"
    );
    assert_eq!(ScoreError::TooManySubtests.message(), "too many subtests");
    assert_eq!(ScoreError::NoScores.message(), "no test scores found?");
}

#[test]
fn runs_that_agree_score_zero() {
    let all_pass = test_with(
        "/t.html",
        TestStatus::OK,
        vec![
            subtest("s1", SubtestStatus::PASS),
            subtest("s2", SubtestStatus::PASS),
        ],
    );
    let group = vec![vec![&all_pass], vec![&all_pass], vec![&all_pass]];
    let scores = score_test(&group).expect("scores");
    assert!(scores.iter().all(|s| s.num == 0));
    let all_fail = test_with(
        "/t.html",
        TestStatus::OK,
        vec![
            subtest("s1", SubtestStatus::FAIL),
            subtest("s2", SubtestStatus::TIMEOUT),
        ],
    );
    let group = vec![vec![&all_fail], vec![&all_fail]];
    let scores = score_test(&group).expect("scores");
    assert!(scores.iter().all(|s| s.num == 0));
}

#[test]
fn the_one_run_that_fails_is_the_one_that_scores() {
    let failing = test_with(
        "/t.html",
        TestStatus::OK,
        vec![
            subtest("s1", SubtestStatus::PASS),
            subtest("s2", SubtestStatus::FAIL),
            subtest("s3", SubtestStatus::ERROR),
        ],
    );
    let passing = test_with(
        "/t.html",
        TestStatus::OK,
        vec![
            subtest("s1", SubtestStatus::PASS),
            subtest("s2", SubtestStatus::PASS),
            subtest("s3", SubtestStatus::PASS),
        ],
    );
    let group = vec![vec![&passing], vec![&failing], vec![&passing]];
    let scores = score_test(&group).expect("scores");
    assert_eq!(
        scores,
        vec![
            Fraction { num: 0, den: 3 },
            Fraction { num: 2, den: 3 },
            Fraction { num: 0, den: 3 }
        ]
    );
}

#[test]
fn every_score_lies_between_zero_and_one() {
    let run1 = test_with(
        "/t.html",
        TestStatus::OK,
        vec![
            subtest("s1", SubtestStatus::FAIL),
            subtest("s2", SubtestStatus::PASS),
            subtest("s3", SubtestStatus::SKIP),
        ],
    );
    let run2 = test_with(
        "/t.html",
        TestStatus::ERROR,
        vec![
            subtest("s1", SubtestStatus::PASS),
            subtest("s2", SubtestStatus::NOTRUN),
            subtest("s4", SubtestStatus::PASS),
        ],
    );
    let group = vec![vec![&run1], vec![&run2]];
    let scores = score_test(&group).expect("scores");
    assert_eq!(scores.len(), 2);
    for score in &scores {
        assert!(score.den >= 1);
        assert!(score.num <= score.den);
    }
    assert_eq!(
        scores,
        vec![Fraction { num: 2, den: 4 }, Fraction { num: 1, den: 4 }]
    );
}

#[test]
fn score_runs_lines_the_runs_up_test_by_test() {
    let run1 = report(vec![
        test_with("/b/two.html", TestStatus::FAIL, vec![]),
        test_with("/a/one.html", TestStatus::OK, vec![]),
        test_with(
            "/a/sub.html",
            TestStatus::OK,
            vec![
                subtest("s1", SubtestStatus::PASS),
                subtest("s2", SubtestStatus::FAIL),
            ],
        ),
    ]);
    let run2 = report(vec![
        test_with(
            "/a/sub.html",
            TestStatus::OK,
            vec![
                subtest("s2", SubtestStatus::PASS),
                subtest("s1", SubtestStatus::PASS),
            ],
        ),
        test_with("/a/one.html", TestStatus::TIMEOUT, vec![]),
        test_with("/b/two.html", TestStatus::PASS, vec![]),
        test_with("/c.html", TestStatus::PASS, vec![]),
    ]);
    let runs = vec![run1, run2];
    let scored = score_runs(&runs);
    assert_eq!(
        scored,
        vec![
            ("/c.html", Ok(vec![whole(1), whole(0)])),
            ("/a/one.html", Ok(vec![whole(0), whole(1)])),
            (
                "/a/sub.html",
                Ok(vec![Fraction { num: 1, den: 2 }, Fraction { num: 0, den: 2 }])
            ),
            ("/b/two.html", Ok(vec![whole(1), whole(0)])),
        ]
    );
}

#[test]
fn score_runs_reports_a_test_that_a_run_holds_twice() {
    let run1 = report(vec![
        test_with("x", TestStatus::OK, vec![]),
        test_with("y", TestStatus::OK, vec![]),
        test_with("x", TestStatus::FAIL, vec![]),
    ]);
    let run2 = report(vec![test_with("x", TestStatus::OK, vec![])]);
    let runs = vec![run1, run2];
    let scored = score_runs(&runs);
    assert_eq!(
        scored,
        vec![
            ("x", Err(ScoreError::MultipleResults)),
            ("y", Ok(vec![whole(0), whole(1)])),
        ]
    );
}

#[test]
fn score_test_is_found_at_the_root_of_the_crate() {
    let pass = test_with("/t.html", TestStatus::PASS, vec![]);
    let fail = test_with("/t.html", TestStatus::FAIL, vec![]);
    let group = vec![vec![&fail], vec![&pass]];
    assert_eq!(wpt_data::score_test(&group), Ok(vec![whole(1), whole(0)]));
}
