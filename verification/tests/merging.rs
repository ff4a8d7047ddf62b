use wpt_data::bsf::{score_runs_by_dir, score_runs_total, Fraction, ScoreError};
use wpt_data::paths::directory_keys;
use wpt_data::totals::{add_scores, merge_totals, DirTotals, ExactSum, Term};

type Scored<'a> = (&'a str, Result<Vec<Fraction>, ScoreError>);

fn part(num: usize, den: usize) -> Fraction {
    Fraction { num, den }
}

fn term(num: u128, den: usize) -> Term {
    Term { den, num }
}

fn sum_of(scores: &[Fraction]) -> ExactSum {
    let mut sum = ExactSum::zero();
    for score in scores {
        sum.add(*score).expect("added");
    }
    sum
}

fn terms_of(sums: &[ExactSum]) -> Vec<Vec<Term>> {
    sums.iter().map(|sum| sum.terms().clone()).collect()
}

fn dirs_of(totals: &DirTotals) -> Vec<(String, Vec<Vec<Term>>)> {
    totals
        .dirs()
        .iter()
        .map(|(name, sums)| (name.clone(), terms_of(sums)))
        .collect()
}

fn tests() -> Vec<Scored<'static>> {
    vec![
        ("/a/b/one.html", Ok(vec![part(1, 2), part(0, 2)])),
        ("/a/two.html", Ok(vec![part(0, 1), part(1, 1)])),
        ("/a/b/three.html", Ok(vec![part(1, 4), part(2, 4)])),
        ("/c/four.html", Ok(vec![part(1, 2), part(0, 2)])),
        ("/c/d/five.html", Ok(vec![part(3, 4), part(0, 4)])),
    ]
}

fn fold_total(scored: &[Scored]) -> Vec<ExactSum> {
    let mut totals = Vec::new();
    for (_, scores) in scored {
        add_scores(&mut totals, scores.as_ref().expect("scores")).expect("added");
    }
    totals
}

fn fold_dirs(scored: &[Scored], recursive: bool) -> DirTotals {
    let mut dirs = DirTotals::new();
    for (test, scores) in scored {
        for key in directory_keys(test, recursive) {
            dirs.add(key, scores.as_ref().expect("scores"))
                .expect("added");
        }
    }
    dirs
}

#[test]
fn held_tells_the_parts_of_a_whole() {
    let sum = sum_of(&[part(1, 3), part(2, 5), part(1, 3)]);
    assert_eq!(sum.held(3), 2);
    assert_eq!(sum.held(5), 2);
    assert_eq!(sum.held(4), 0);
    assert_eq!(ExactSum::zero().held(1), 0);
}

#[test]
fn merging_sums_adds_them_whole_by_whole() {
    let mut sum = sum_of(&[part(1, 2), part(1, 5)]);
    let other = sum_of(&[part(2, 3), part(3, 5), part(1, 7)]);
    assert!(sum.fits(&other));
    assert_eq!(sum.merge(&other), Ok(()));
    assert_eq!(
        sum.terms(),
        &vec![term(1, 2), term(2, 3), term(4, 5), term(1, 7)]
    );
    assert_eq!(sum.merge(&ExactSum::zero()), Ok(()));
    assert_eq!(
        sum.terms(),
        &vec![term(1, 2), term(2, 3), term(4, 5), term(1, 7)]
    );
}

#[test]
fn a_merge_that_does_not_fit_changes_nothing() {
    let mut sum = ExactSum::zero();
    sum.add_parts(2, 5).expect("added");
    sum.add_parts(3, u128::MAX).expect("added");
    let mut other = ExactSum::zero();
    other.add_parts(2, 1).expect("added");
    other.add_parts(3, 1).expect("added");
    assert!(!sum.fits(&other));
    assert_eq!(sum.merge(&other), Err(ScoreError::TooManySubtests));
    assert_eq!(sum.terms(), &vec![term(5, 2), term(u128::MAX, 3)]);
    assert!(other.fits(&other));
}

#[test]
fn add_scores_starts_the_sums_and_adds_to_them() {
    let mut totals = Vec::new();
    assert_eq!(add_scores(&mut totals, &[part(1, 2), part(0, 2)]), Ok(()));
    assert_eq!(terms_of(&totals), vec![vec![term(1, 2)], vec![]]);
    assert_eq!(add_scores(&mut totals, &[part(1, 2), part(1, 3)]), Ok(()));
    assert_eq!(terms_of(&totals), vec![vec![term(2, 2)], vec![term(1, 3)]]);
}

#[test]
fn add_scores_that_do_not_fit_change_nothing() {
    let mut full = ExactSum::zero();
    full.add_parts(3, u128::MAX).expect("added");
    let mut totals = vec![sum_of(&[part(1, 3)]), full];
    assert_eq!(
        add_scores(&mut totals, &[part(1, 3), part(1, 3)]),
        Err(ScoreError::TooManySubtests)
    );
    assert_eq!(
        terms_of(&totals),
        vec![vec![term(1, 3)], vec![term(u128::MAX, 3)]]
    );
}

#[test]
fn merge_totals_adds_run_by_run() {
    let mut totals = fold_total(&tests()[..2]);
    let other = fold_total(&tests()[2..]);
    assert_eq!(merge_totals(&mut totals, other), Ok(()));
    assert_eq!(terms_of(&totals), terms_of(&fold_total(&tests())));
    assert_eq!(
        terms_of(&totals),
        vec![
            vec![term(2, 2), term(4, 4)],
            vec![term(1, 1), term(2, 4)]
        ]
    );
}

#[test]
fn merge_totals_with_empty_sums() {
    let mut totals = Vec::new();
    assert_eq!(merge_totals(&mut totals, Vec::new()), Ok(()));
    assert!(totals.is_empty());
    assert_eq!(merge_totals(&mut totals, fold_total(&tests())), Ok(()));
    assert_eq!(terms_of(&totals), terms_of(&fold_total(&tests())));
    assert_eq!(merge_totals(&mut totals, Vec::new()), Ok(()));
    assert_eq!(terms_of(&totals), terms_of(&fold_total(&tests())));
}

#[test]
fn merge_totals_that_do_not_fit_change_nothing() {
    let mut full = ExactSum::zero();
    full.add_parts(3, u128::MAX).expect("added");
    let mut totals = vec![sum_of(&[part(1, 3)]), full];
    let other = vec![sum_of(&[part(1, 3)]), sum_of(&[part(1, 3)])];
    assert_eq!(
        merge_totals(&mut totals, other),
        Err(ScoreError::TooManySubtests)
    );
    assert_eq!(
        terms_of(&totals),
        vec![vec![term(1, 3)], vec![term(u128::MAX, 3)]]
    );
}

#[test]
fn the_total_is_the_same_however_the_tests_are_split() {
    let scored = tests();
    let whole = score_runs_total(&scored).expect("total");
    for split in 0..=scored.len() {
        let mut totals = fold_total(&scored[..split]);
        let other = fold_total(&scored[split..]);
        merge_totals(&mut totals, other).expect("merged");
        assert_eq!(terms_of(&totals), terms_of(&whole));
    }
}

#[test]
fn directories_add_scores_and_keep_their_order() {
    let mut dirs = DirTotals::new();
    assert_eq!(dirs.add("/b", &[part(1, 2), part(0, 2)]), Ok(()));
    assert_eq!(dirs.add("/a/b", &[part(1, 3), part(1, 3)]), Ok(()));
    assert_eq!(dirs.add("/a", &[part(0, 1), part(1, 1)]), Ok(()));
    assert_eq!(dirs.add("/b", &[part(1, 2), part(1, 2)]), Ok(()));
    assert_eq!(
        dirs_of(&dirs),
        vec![
            ("/a".to_string(), vec![vec![], vec![term(1, 1)]]),
            ("/b".to_string(), vec![vec![term(2, 2)], vec![term(1, 2)]]),
            ("/a/b".to_string(), vec![vec![term(1, 3)], vec![term(1, 3)]]),
        ]
    );
}

#[test]
fn get_finds_the_sums_of_a_directory() {
    let dirs = fold_dirs(&tests(), false);
    let sums = dirs.get("/a/b").expect("sums");
    assert_eq!(
        terms_of(sums),
        vec![vec![term(1, 2), term(1, 4)], vec![term(2, 4)]]
    );
    assert!(dirs.get("/a/c").is_none());
    assert!(dirs.get("/").is_none());
    assert!(DirTotals::new().get("/a").is_none());
}

#[test]
fn merging_directories_joins_them() {
    let mut dirs = fold_dirs(&tests()[..3], true);
    let other = fold_dirs(&tests()[3..], true);
    assert_eq!(dirs.merge(other), Ok(()));
    assert_eq!(dirs_of(&dirs), dirs_of(&fold_dirs(&tests(), true)));
    assert_eq!(
        dirs_of(&dirs),
        vec![
            (
                "/".to_string(),
                vec![vec![term(2, 2), term(4, 4)], vec![term(1, 1), term(2, 4)]]
            ),
            (
                "/a".to_string(),
                vec![vec![term(1, 2), term(1, 4)], vec![term(1, 1), term(2, 4)]]
            ),
            (
                "/c".to_string(),
                vec![vec![term(1, 2), term(3, 4)], vec![]]
            ),
            (
                "/a/b".to_string(),
                vec![vec![term(1, 2), term(1, 4)], vec![term(2, 4)]]
            ),
            ("/c/d".to_string(), vec![vec![term(3, 4)], vec![]]),
        ]
    );
}

#[test]
fn the_directories_are_the_same_however_the_tests_are_split() {
    let scored = tests();
    for recursive in [false, true] {
        let whole = score_runs_by_dir(&scored, recursive).expect("by dir");
        for split in 0..=scored.len() {
            let mut dirs = fold_dirs(&scored[..split], recursive);
            let other = fold_dirs(&scored[split..], recursive);
            dirs.merge(other).expect("merged");
            assert_eq!(dirs_of(&dirs), dirs_of(&whole));
        }
    }
}

fn doubled(times: usize) -> DirTotals {
    let mut dirs = DirTotals::new();
    dirs.add("/a", &[part(1, 2), part(usize::MAX, usize::MAX)])
        .expect("added");
    dirs.add("/b", &[part(1, 2), part(0, 1)]).expect("added");
    for _ in 0..times {
        let same = dirs.clone();
        dirs.merge(same).expect("merged");
    }
    dirs
}

#[test]
fn merging_directories_that_do_not_fit_changes_nothing() {
    let mut dirs = doubled(64);
    let parts = (usize::MAX as u128) << 64;
    let before = dirs_of(&dirs);
    assert_eq!(
        before,
        vec![
            (
                "/a".to_string(),
                vec![vec![term(1 << 64, 2)], vec![term(parts, usize::MAX)]]
            ),
            ("/b".to_string(), vec![vec![term(1 << 64, 2)], vec![]]),
        ]
    );
    let same = dirs.clone();
    assert_eq!(dirs.merge(same), Err(ScoreError::TooManySubtests));
    assert_eq!(dirs_of(&dirs), before);
}

#[test]
fn adding_to_a_full_directory_changes_nothing() {
    let mut dirs = doubled(64);
    let mut rest = DirTotals::new();
    rest.add("/a", &[part(0, 1), part(usize::MAX - 1, usize::MAX)])
        .expect("added");
    dirs.merge(rest).expect("merged");
    let full = dirs_of(&dirs);
    assert_eq!(
        full[0],
        (
            "/a".to_string(),
            vec![vec![term(1 << 64, 2)], vec![term(u128::MAX - 1, usize::MAX)]]
        )
    );
    assert_eq!(
        dirs.add("/a", &[part(1, 2), part(2, usize::MAX)]),
        Err(ScoreError::TooManySubtests)
    );
    assert_eq!(dirs_of(&dirs), full);
    assert_eq!(dirs.add("/a", &[part(1, 2), part(1, usize::MAX)]), Ok(()));
    assert_eq!(
        dirs_of(&dirs)[0],
        (
            "/a".to_string(),
            vec![vec![term((1 << 64) + 1, 2)], vec![term(u128::MAX, usize::MAX)]]
        )
    );
}
