use wpt_data::order::{key_less, same_id};
use wpt_data::utils::{AlignedResults, TestName};
use wpt_data::wptreport::{SubtestResult, SubtestStatus, TestResult, TestStatus};

fn subtest(name: &str, status: SubtestStatus) -> SubtestResult {
    SubtestResult {
        name: name.to_string(),
        status,
        expected: None,
        known_intermittent: None,
        message: None,
    }
}

fn test(id: &str, status: TestStatus) -> TestResult {
    TestResult {
        test: id.to_string(),
        subtests: vec![],
        status,
        expected: None,
        known_intermittent: None,
        message: None,
        duration: None,
        asserts: None,
        reftest_screenshots: None,
    }
}

fn groups_of(runs: &[&Vec<SubtestResult>]) -> Vec<(String, Vec<Vec<SubtestStatus>>)> {
    let mut aligned = AlignedResults::new(runs);
    let mut groups = Vec::new();
    while let Some((id, buckets)) = aligned.next() {
        groups.push((
            id.to_string(),
            buckets
                .iter()
                .map(|bucket| bucket.iter().map(|r| r.status).collect())
                .collect(),
        ));
    }
    groups
}

#[test]
fn id_is_the_name_of_the_record() {
    assert_eq!(test("/a/b.html", TestStatus::OK).id(), "/a/b.html");
    assert_eq!(subtest("first", SubtestStatus::PASS).id(), "first");
}

#[test]
fn sort_key_is_length_then_identifier() {
    let record = subtest("abc", SubtestStatus::PASS);
    let by_ref = &record;
    assert_eq!(AlignedResults::<SubtestResult>::sort_key(&by_ref), (3, "abc"));
    let wide = subtest("é", SubtestStatus::PASS);
    let wide_ref = &wide;
    assert_eq!(AlignedResults::<SubtestResult>::sort_key(&wide_ref), (2, "é"));
}

#[test]
fn shorter_identifiers_come_first() {
    assert!(key_less("b", "aa"));
    assert!(!key_less("aa", "b"));
    assert!(key_less("ab", "ac"));
    assert!(!key_less("ac", "ab"));
    assert!(!key_less("ab", "ab"));
    assert!(key_less("", "a"));
    assert!(key_less("zz", "é!"));
}

#[test]
fn same_id_compares_whole_identifiers() {
    assert!(same_id("abc", "abc"));
    assert!(!same_id("abc", "abd"));
    assert!(!same_id("abc", "ab"));
    assert!(same_id("", ""));
}

#[test]
fn groups_come_in_ascending_order_from_unsorted_runs() {
    let run1 = vec![
        subtest("bb", SubtestStatus::FAIL),
        subtest("c", SubtestStatus::PASS),
        subtest("a", SubtestStatus::TIMEOUT),
    ];
    let run2 = vec![
        subtest("a", SubtestStatus::PASS),
        subtest("bb", SubtestStatus::ERROR),
    ];
    let groups = groups_of(&[&run1, &run2]);
    assert_eq!(
        groups,
        vec![
            (
                "a".to_string(),
                vec![vec![SubtestStatus::TIMEOUT], vec![SubtestStatus::PASS]]
            ),
            ("c".to_string(), vec![vec![SubtestStatus::PASS], vec![]]),
            (
                "bb".to_string(),
                vec![vec![SubtestStatus::FAIL], vec![SubtestStatus::ERROR]]
            ),
        ]
    );
}

#[test]
fn a_run_that_lacks_an_identifier_gives_an_empty_bucket() {
    let run1 = vec![subtest("x", SubtestStatus::PASS)];
    let run2 = vec![];
    let run3 = vec![subtest("y", SubtestStatus::FAIL)];
    let groups = groups_of(&[&run1, &run2, &run3]);
    assert_eq!(
        groups,
        vec![
            (
                "x".to_string(),
                vec![vec![SubtestStatus::PASS], vec![], vec![]]
            ),
            (
                "y".to_string(),
                vec![vec![], vec![], vec![SubtestStatus::FAIL]]
            ),
        ]
    );
}

#[test]
fn repeated_identifiers_share_a_bucket_in_the_order_of_the_run() {
    let run1 = vec![
        subtest("x", SubtestStatus::PASS),
        subtest("a", SubtestStatus::NOTRUN),
        subtest("x", SubtestStatus::FAIL),
        subtest("x", SubtestStatus::ERROR),
    ];
    let run2 = vec![subtest("x", SubtestStatus::SKIP)];
    let groups = groups_of(&[&run1, &run2]);
    assert_eq!(
        groups,
        vec![
            ("a".to_string(), vec![vec![SubtestStatus::NOTRUN], vec![]]),
            (
                "x".to_string(),
                vec![
                    vec![
                        SubtestStatus::PASS,
                        SubtestStatus::FAIL,
                        SubtestStatus::ERROR
                    ],
                    vec![SubtestStatus::SKIP]
                ]
            ),
        ]
    );
}

#[test]
fn no_runs_and_empty_runs_give_no_group() {
    let none: Vec<&Vec<SubtestResult>> = vec![];
    assert!(groups_of(&none).is_empty());
    let empty = vec![];
    assert!(groups_of(&[&empty, &empty]).is_empty());
}

#[test]
fn next_stays_none_after_the_last_group() {
    let run = vec![test("/a", TestStatus::OK)];
    let runs = [&run];
    let mut aligned = AlignedResults::new(&runs);
    let first = aligned.next();
    assert!(matches!(first, Some(("/a", _))));
    assert!(aligned.next().is_none());
    assert!(aligned.next().is_none());
}

#[test]
fn identifiers_of_one_length_go_byte_by_byte() {
    let run1 = vec![
        subtest("ñ", SubtestStatus::PASS),
        subtest("zz", SubtestStatus::PASS),
        subtest("é", SubtestStatus::FAIL),
        subtest("a", SubtestStatus::PASS),
    ];
    let run2 = vec![
        subtest("é", SubtestStatus::PASS),
        subtest("a", SubtestStatus::ERROR),
        subtest("ñ", SubtestStatus::PASS),
    ];
    let groups = groups_of(&[&run1, &run2]);
    let ids: Vec<&str> = groups.iter().map(|(id, _)| id.as_str()).collect();
    assert_eq!(ids, vec!["a", "zz", "é", "ñ"]);
    assert_eq!(
        groups[1].1,
        vec![vec![SubtestStatus::PASS], Vec::<SubtestStatus>::new()]
    );
    assert_eq!(
        groups[2].1,
        vec![vec![SubtestStatus::FAIL], vec![SubtestStatus::PASS]]
    );
    assert!(key_less("zz", "é"));
    assert!(key_less("é", "ñ"));
}

#[test]
fn a_run_starts_out_empty() {
    let run = wpt_data::fetch_wptfyi::Run::default();
    assert_eq!(run.id, 0);
    assert!(run.raw_results_url.is_empty());
    assert!(run.labels.is_empty());
    let mut other = run.clone();
    assert_eq!(run, other);
    other.labels.push("master".to_string());
    assert_ne!(run, other);
}
