//! Sums of scores, held exactly.
//!
//! A score is a fraction. A sum of scores keeps, for every denominator
//! that occurs, the sum of the numerators over it: the sum then does not
//! depend on the order in which the scores arrive, nor on how they are
//! split into partial sums that are merged later.

use crate::bsf::{valid_scores, Fraction, ScoreError, MAX_EXACT_COUNT};
use crate::order::{key_less, key_lt, lemma_key_lt_total, lemma_key_lt_transitive, same_id};
use crate::paths::dir_keys;
use vstd::prelude::*;
use vstd::string::*;

verus! {

/// One term of a sum: `num` parts of `den`.
#[derive(Clone, Copy, Debug, PartialEq, Eq, Structural)]
pub struct Term {
    /// The whole that the parts are parts of.
    pub den: usize,
    /// The number of parts.
    pub num: u128,
}

/// The parts of `den` that the terms hold between them.
pub open spec fn parts_in(terms: Seq<Term>, den: int) -> nat
    decreases terms.len(),
{
    if terms.len() == 0 {
        0
    } else if terms.last().den == den {
        parts_in(terms.drop_last(), den) + terms.last().num as nat
    } else {
        parts_in(terms.drop_last(), den)
    }
}

/// The parts of `den` that the term `term` holds.
pub open spec fn parts_of(term: Term, den: int) -> nat {
    if term.den == den {
        term.num as nat
    } else {
        0
    }
}

/// The terms are in ascending order of their denominators, no two of them
/// share a denominator, and none is zero.
pub open spec fn canonical(terms: Seq<Term>) -> bool {
    &&& forall|i: int, j: int| 0 <= i < j < terms.len() ==> terms[i].den < terms[j].den
    &&& forall|i: int| 0 <= i < terms.len() ==> terms[i].num > 0
}

/// A term that is put in adds its parts.
proof fn lemma_parts_insert(terms: Seq<Term>, at: int, term: Term, den: int)
    requires
        0 <= at <= terms.len(),
    ensures
        parts_in(terms.insert(at, term), den) == parts_in(terms, den) + parts_of(term, den),
    decreases terms.len() - at,
{
    let longer = terms.insert(at, term);
    if at == terms.len() {
        assert(longer.drop_last() =~= terms);
    } else {
        assert(longer.drop_last() =~= terms.drop_last().insert(at, term));
        lemma_parts_insert(terms.drop_last(), at, term, den);
    }
}

/// A term that is replaced takes its parts with it and leaves those of
/// the new term.
proof fn lemma_parts_update(terms: Seq<Term>, at: int, term: Term, den: int)
    requires
        0 <= at < terms.len(),
    ensures
        parts_in(terms.update(at, term), den) + parts_of(terms[at], den) == parts_in(terms, den)
            + parts_of(term, den),
    decreases terms.len(),
{
    let changed = terms.update(at, term);
    if at == terms.len() - 1 {
        assert(changed.drop_last() =~= terms.drop_last());
    } else {
        assert(changed.drop_last() =~= terms.drop_last().update(at, term));
        lemma_parts_update(terms.drop_last(), at, term, den);
    }
}

/// Among canonical terms, the parts of a denominator are those of the one
/// term that has it, if there is one.
proof fn lemma_parts_canonical(terms: Seq<Term>, den: int)
    requires
        canonical(terms),
    ensures
        forall|i: int| 0 <= i < terms.len() && terms[i].den == den ==> parts_in(terms, den)
            == terms[i].num,
        (forall|i: int| 0 <= i < terms.len() ==> terms[i].den != den) ==> parts_in(terms, den)
            == 0,
    decreases terms.len(),
{
    if terms.len() > 0 {
        let front = terms.drop_last();
        lemma_parts_canonical(front, den);
        if terms.last().den != den {
            assert forall|i: int| 0 <= i < terms.len() && terms[i].den == den implies parts_in(
                terms,
                den,
            ) == terms[i].num by {
                assert(front[i] == terms[i]);
            }
        }
    }
}

/// Canonical terms hold no more parts of a denominator than one term can
/// count.
pub proof fn lemma_parts_fit(terms: Seq<Term>, den: int)
    requires
        canonical(terms),
    ensures
        parts_in(terms, den) <= u128::MAX,
{
    lemma_parts_canonical(terms, den);
}

/// Canonical terms that hold the same parts of every denominator are the
/// same terms: a sum is held in one way only.
pub proof fn lemma_canonical_unique(a: Seq<Term>, b: Seq<Term>)
    requires
        canonical(a),
        canonical(b),
        forall|den: int| parts_in(a, den) == parts_in(b, den),
    ensures
        a == b,
    decreases a.len() + b.len(),
{
    if a.len() == 0 {
        if b.len() > 0 {
            lemma_parts_canonical(b, b.last().den as int);
        }
    } else if b.len() == 0 {
        lemma_parts_canonical(a, a.last().den as int);
    } else {
        let x = a.last();
        let y = b.last();
        lemma_parts_canonical(b, x.den as int);
        lemma_parts_canonical(a, y.den as int);
        if x.den == y.den {
            let front_a = a.drop_last();
            let front_b = b.drop_last();
            assert forall|den: int| parts_in(front_a, den) == parts_in(front_b, den) by {
                assert(parts_in(a, den) == parts_in(b, den));
            }
            lemma_canonical_unique(front_a, front_b);
            assert(a =~= front_a.push(x));
        }
    }
}

/// A sum of scores, held exactly: for every denominator the number of
/// parts of it. It stands for the number that adding `parts(den) / den`
/// over all denominators gives.
#[derive(Clone, Debug)]
pub struct ExactSum {
    terms: Vec<Term>,
}

impl ExactSum {
    /// The terms of the sum: in ascending order of their denominators, and
    /// none of them zero.
    pub closed spec fn spec_terms(&self) -> Seq<Term> {
        self.terms@
    }

    /// The number of parts of `den` in the sum.
    pub open spec fn parts(&self, den: int) -> nat {
        parts_in(self.spec_terms(), den)
    }

    /// The sum is in order: see [`canonical`].
    pub open spec fn wf(&self) -> bool {
        canonical(self.spec_terms())
    }

    /// The empty sum.
    pub fn zero() -> (sum: ExactSum)
        ensures
            sum.wf(),
            sum.spec_terms().len() == 0,
            forall|den: int| sum.parts(den) == 0,
    {
        ExactSum { terms: Vec::new() }
    }

    /// The terms of the sum.
    pub fn terms(&self) -> (terms: &Vec<Term>)
        ensures
            terms@ == self.spec_terms(),
    {
        &self.terms
    }

    /// Adds `num` parts of `den`. Fails, and leaves the sum as it is, where
    /// the sum would hold more parts of `den` than it can count.
    pub fn add_parts(&mut self, den: usize, num: u128) -> (done: Result<(), ScoreError>)
        requires
            old(self).wf(),
        ensures
            final(self).wf(),
            match done {
                Ok(()) => forall|d: int| #[trigger]
                    final(self).parts(d) == old(self).parts(d) + parts_of(Term { den, num }, d),
                Err(e) => {
                    &&& e == ScoreError::TooManySubtests
                    &&& old(self).parts(den as int) + num > u128::MAX
                    &&& final(self).spec_terms() == old(self).spec_terms()
                },
            },
    {
        if num == 0 {
            return Ok(());
        }
        let ghost before = self.terms@;
        let n = self.terms.len();
        let at = self.place(den);
        proof {
            lemma_parts_canonical(before, den as int);
        }
        if at < n && self.terms[at].den == den {
            let held = self.terms[at].num;
            match held.checked_add(num) {
                None => {
                    return Err(ScoreError::TooManySubtests);
                },
                Some(total) => {
                    self.terms.set(at, Term { den, num: total });
                    proof {
                        assert forall|d: int| #[trigger]
                            parts_in(self.terms@, d) == parts_in(before, d) + parts_of(
                                Term { den, num },
                                d,
                            ) by {
                            lemma_parts_update(before, at as int, Term { den, num: total }, d);
                        }
                    }
                },
            }
        } else {
            self.terms.insert(at, Term { den, num });
            proof {
                assert forall|d: int| #[trigger]
                    parts_in(self.terms@, d) == parts_in(before, d) + parts_of(
                        Term { den, num },
                        d,
                    ) by {
                    lemma_parts_insert(before, at as int, Term { den, num }, d);
                }
            }
        }
        Ok(())
    }

    /// Adds a score to the sum. Fails, and leaves the sum as it is, where
    /// the sum would hold more parts of the score's denominator than it
    /// can count.
    pub fn add(&mut self, score: Fraction) -> (done: Result<(), ScoreError>)
        requires
            old(self).wf(),
        ensures
            final(self).wf(),
            match done {
                Ok(()) => forall|d: int| #[trigger]
                    final(self).parts(d) == old(self).parts(d) + score_parts(score, d),
                Err(e) => {
                    &&& e == ScoreError::TooManySubtests
                    &&& old(self).parts(score.den as int) + score.num > u128::MAX
                    &&& final(self).spec_terms() == old(self).spec_terms()
                },
            },
    {
        self.add_parts(score.den, score.num as u128)
    }

    /// The number of parts of `den` in the sum.
    pub fn held(&self, den: usize) -> (num: u128)
        requires
            self.wf(),
        ensures
            num == self.parts(den as int),
    {
        proof {
            lemma_parts_canonical(self.terms@, den as int);
        }
        let at = self.place(den);
        if at < self.terms.len() && self.terms[at].den == den {
            self.terms[at].num
        } else {
            0
        }
    }

    /// Finds the place of the whole `den` among the terms: where its term
    /// stands, or where it would.
    fn place(&self, den: usize) -> (at: usize)
        requires
            self.wf(),
        ensures
            at <= self.spec_terms().len(),
            forall|i: int| 0 <= i < at ==> self.spec_terms()[i].den < den,
            forall|i: int| at <= i < self.spec_terms().len() ==> den <= self.spec_terms()[i].den,
    {
        let mut at: usize = 0;
        let mut end: usize = self.terms.len();
        while at < end
            invariant
                at <= end <= self.terms@.len(),
                canonical(self.terms@),
                forall|i: int| 0 <= i < at ==> self.terms@[i].den < den,
                forall|i: int| end <= i < self.terms@.len() ==> den <= self.terms@[i].den,
            decreases end - at,
        {
            let mid = at + (end - at) / 2;
            if self.terms[mid].den < den {
                at = mid + 1;
            } else {
                end = mid;
            }
        }
        at
    }

    /// Tells whether the sum can take in all of `other`: whether it can
    /// count, for every denominator, the parts of both.
    pub fn fits(&self, other: &ExactSum) -> (fits: bool)
        requires
            self.wf(),
            other.wf(),
        ensures
            fits <==> forall|d: int| self.parts(d) + other.parts(d) <= u128::MAX,
    {
        let mut k: usize = 0;
        while k < other.terms.len()
            invariant
                self.wf(),
                other.wf(),
                k <= other.terms@.len(),
                forall|j: int|
                    0 <= j < k ==> self.parts((#[trigger] other.terms@[j]).den as int)
                        + other.terms@[j].num <= u128::MAX,
            decreases other.terms@.len() - k,
        {
            let term = other.terms[k];
            if self.held(term.den).checked_add(term.num).is_none() {
                proof {
                    lemma_parts_canonical(other.terms@, term.den as int);
                }
                return false;
            }
            k += 1;
        }
        proof {
            assert forall|d: int| self.parts(d) + other.parts(d) <= u128::MAX by {
                lemma_parts_canonical(other.terms@, d);
                lemma_parts_canonical(self.terms@, d);
            }
        }
        true
    }

    /// Adds all of `other` to the sum. Fails, and leaves the sum as it is,
    /// where it cannot count the parts of both for some denominator.
    pub fn merge(&mut self, other: &ExactSum) -> (done: Result<(), ScoreError>)
        requires
            old(self).wf(),
            other.wf(),
        ensures
            final(self).wf(),
            match done {
                Ok(()) => forall|d: int| #[trigger]
                    final(self).parts(d) == old(self).parts(d) + other.parts(d),
                Err(e) => {
                    &&& e == ScoreError::TooManySubtests
                    &&& exists|d: int| old(self).parts(d) + other.parts(d) > u128::MAX
                    &&& final(self).spec_terms() == old(self).spec_terms()
                },
            },
    {
        if !self.fits(other) {
            return Err(ScoreError::TooManySubtests);
        }
        let ghost before = self.terms@;
        let mut k: usize = 0;
        while k < other.terms.len()
            invariant
                canonical(before),
                other.wf(),
                self.wf(),
                k <= other.terms@.len(),
                forall|d: int| parts_in(before, d) + other.parts(d) <= u128::MAX,
                forall|d: int| #[trigger]
                    self.parts(d) == parts_in(before, d) + parts_in(other.terms@.take(k as int), d),
            decreases other.terms@.len() - k,
        {
            let term = other.terms[k];
            let ghost taken = other.terms@.take(k as int);
            proof {
                lemma_parts_canonical(other.terms@, term.den as int);
                lemma_parts_canonical(taken, term.den as int);
            }
            let done = self.add_parts(term.den, term.num);
            assert(done is Ok);
            proof {
                assert(other.terms@.take(k + 1).drop_last() =~= taken);
            }
            k += 1;
        }
        proof {
            assert(other.terms@.take(k as int) =~= other.terms@);
        }
        Ok(())
    }
}

/// The parts of `den` that a score holds: its numerator, where `den` is
/// its denominator.
pub open spec fn score_parts(score: Fraction, den: int) -> nat {
    if score.den == den {
        score.num as nat
    } else {
        0
    }
}

/// Every sum is in order.
pub open spec fn sums_in_order(sums: Seq<ExactSum>) -> bool {
    forall|slot: int| 0 <= slot < sums.len() ==> (#[trigger] sums[slot]).wf()
}

/// The parts of `den` in the sum of the run `slot`, where `sums` holds a
/// sum for every run; none where it holds no sum for the run.
pub open spec fn sum_parts(sums: Seq<ExactSum>, slot: int, den: int) -> nat {
    if 0 <= slot < sums.len() {
        sums[slot].parts(den)
    } else {
        0
    }
}

/// The parts of `den` in the score of the run `slot`; none where there is
/// no score for the run.
pub open spec fn scores_parts(scores: Seq<Fraction>, slot: int, den: int) -> nat {
    if 0 <= slot < scores.len() {
        score_parts(scores[slot], den)
    } else {
        0
    }
}

/// Adds the scores of one test to the sums of the runs, run by run. Sums
/// that are empty yet are started: one for every score.
///
/// Fails, and leaves the sums as they are, where a sum would hold more
/// parts of a whole than it can count.
pub fn add_scores(totals: &mut Vec<ExactSum>, scores: &[Fraction]) -> (done: Result<
    (),
    ScoreError,
>)
    requires
        sums_in_order(old(totals)@),
        old(totals)@.len() == 0 || old(totals)@.len() == scores@.len(),
    ensures
        sums_in_order(final(totals)@),
        match done {
            Ok(()) => {
                &&& final(totals)@.len() == scores@.len()
                &&& forall|slot: int, den: int| #[trigger]
                    sum_parts(final(totals)@, slot, den) == sum_parts(old(totals)@, slot, den)
                        + scores_parts(scores@, slot, den)
            },
            Err(e) => {
                &&& e == ScoreError::TooManySubtests
                &&& exists|slot: int|
                    0 <= slot < scores@.len() && sum_parts(
                        old(totals)@,
                        slot,
                        (#[trigger] scores@[slot]).den as int,
                    ) + scores@[slot].num > u128::MAX
                &&& final(totals)@ == old(totals)@
            },
        },
{
    let ghost before = totals@;
    let n = scores.len();
    if totals.len() == 0 {
        let mut slot: usize = 0;
        while slot < n
            invariant
                slot <= n,
                totals@.len() == slot,
                forall|t: int|
                    0 <= t < slot ==> (#[trigger] totals@[t]).wf() && forall|den: int| #[trigger]
                        totals@[t].parts(den) == 0,
            decreases n - slot,
        {
            totals.push(ExactSum::zero());
            slot += 1;
        }
    } else {
        let mut slot: usize = 0;
        while slot < n
            invariant
                n == scores@.len(),
                slot <= n,
                totals@ == before,
                totals@.len() == n,
                sums_in_order(before),
                forall|t: int|
                    0 <= t < slot ==> before[t].parts((#[trigger] scores@[t]).den as int)
                        + scores@[t].num <= u128::MAX,
            decreases n - slot,
        {
            let score = scores[slot];
            if totals[slot].held(score.den).checked_add(score.num as u128).is_none() {
                return Err(ScoreError::TooManySubtests);
            }
            slot += 1;
        }
    }
    let ghost started = totals@;
    let mut slot: usize = 0;
    while slot < n
        invariant
            n == scores@.len(),
            slot <= n,
            totals@.len() == n,
            started.len() == n,
            sums_in_order(totals@),
            forall|t: int, den: int|
                0 <= t < n ==> #[trigger] started[t].parts(den) == sum_parts(before, t, den),
            forall|t: int|
                0 <= t < n ==> started[t].parts((#[trigger] scores@[t]).den as int) + scores@[t].num
                    <= u128::MAX,
            forall|t: int, den: int|
                0 <= t < slot ==> #[trigger] totals@[t].parts(den) == started[t].parts(den)
                    + score_parts(scores@[t], den),
            forall|t: int| slot <= t < n ==> #[trigger] totals@[t] == started[t],
        decreases n - slot,
    {
        let done = totals[slot].add(scores[slot]);
        assert(done is Ok);
        slot += 1;
    }
    Ok(())
}

/// Adds the sums of `other` to the sums of the runs, run by run. Sums
/// that are empty yet become those of `other`.
///
/// Fails, and leaves the sums as they are, where a sum would hold more
/// parts of a whole than it can count.
pub fn merge_totals(totals: &mut Vec<ExactSum>, other: Vec<ExactSum>) -> (done: Result<
    (),
    ScoreError,
>)
    requires
        sums_in_order(old(totals)@),
        sums_in_order(other@),
        old(totals)@.len() == 0 || other@.len() == 0 || old(totals)@.len() == other@.len(),
    ensures
        sums_in_order(final(totals)@),
        match done {
            Ok(()) => {
                &&& final(totals)@.len() == if old(totals)@.len() == 0 {
                    other@.len()
                } else {
                    old(totals)@.len()
                }
                &&& forall|slot: int, den: int| #[trigger]
                    sum_parts(final(totals)@, slot, den) == sum_parts(old(totals)@, slot, den)
                        + sum_parts(other@, slot, den)
            },
            Err(e) => {
                &&& e == ScoreError::TooManySubtests
                &&& exists|slot: int, den: int|
                    (#[trigger] sum_parts(old(totals)@, slot, den)) + sum_parts(other@, slot, den)
                        > u128::MAX
                &&& final(totals)@ == old(totals)@
            },
        },
{
    let ghost before = totals@;
    if other.len() == 0 {
        return Ok(());
    }
    if totals.len() == 0 {
        *totals = other;
        return Ok(());
    }
    let n = totals.len();
    let mut slot: usize = 0;
    while slot < n
        invariant
            slot <= n,
            totals@ == before,
            before == old(totals)@,
            n == before.len(),
            n == other@.len(),
            sums_in_order(before),
            sums_in_order(other@),
            forall|t: int, den: int|
                0 <= t < slot ==> #[trigger] before[t].parts(den) + other@[t].parts(den)
                    <= u128::MAX,
        decreases n - slot,
    {
        if !totals[slot].fits(&other[slot]) {
            proof {
                let den = choose|den: int|
                    before[slot as int].parts(den) + other@[slot as int].parts(den) > u128::MAX;
                assert(sum_parts(before, slot as int, den) + sum_parts(other@, slot as int, den)
                    > u128::MAX);
            }
            return Err(ScoreError::TooManySubtests);
        }
        slot += 1;
    }
    let mut slot: usize = 0;
    while slot < n
        invariant
            slot <= n,
            before == old(totals)@,
            n == before.len(),
            n == other@.len(),
            totals@.len() == n,
            sums_in_order(totals@),
            sums_in_order(other@),
            forall|t: int, den: int|
                0 <= t < n ==> #[trigger] before[t].parts(den) + other@[t].parts(den) <= u128::MAX,
            forall|t: int, den: int|
                0 <= t < slot ==> #[trigger] totals@[t].parts(den) == before[t].parts(den)
                    + other@[t].parts(den),
            forall|t: int| slot <= t < n ==> #[trigger] totals@[t] == before[t],
        decreases n - slot,
    {
        let done = totals[slot].merge(&other[slot]);
        assert(done is Ok);
        slot += 1;
    }
    Ok(())
}

/// The directory `key` is among `dirs`.
pub open spec fn dir_present(dirs: Seq<(String, Vec<ExactSum>)>, key: Seq<char>) -> bool {
    exists|i: int| 0 <= i < dirs.len() && (#[trigger] dirs[i]).0@ == key
}

/// Where the directory `key` stands among `dirs`.
pub open spec fn dir_position(dirs: Seq<(String, Vec<ExactSum>)>, key: Seq<char>) -> int {
    choose|i: int| 0 <= i < dirs.len() && (#[trigger] dirs[i]).0@ == key
}

/// The sums of the directory `key`, run by run; none where the directory
/// is not among `dirs`.
pub open spec fn dir_sums(dirs: Seq<(String, Vec<ExactSum>)>, key: Seq<char>) -> Seq<ExactSum> {
    if dir_present(dirs, key) {
        dirs[dir_position(dirs, key)].1@
    } else {
        Seq::empty()
    }
}

/// The directories are in ascending order of their names, no two of them
/// share a name, and every sum is in order.
pub open spec fn dirs_in_order(dirs: Seq<(String, Vec<ExactSum>)>) -> bool {
    &&& forall|i: int, j: int|
        0 <= i < j < dirs.len() ==> key_lt((#[trigger] dirs[i]).0@, (#[trigger] dirs[j]).0@)
    &&& forall|i: int| 0 <= i < dirs.len() ==> sums_in_order((#[trigger] dirs[i]).1@)
}

/// Among directories in order, a name is found at one place only.
proof fn lemma_dir_position(dirs: Seq<(String, Vec<ExactSum>)>, at: int)
    requires
        dirs_in_order(dirs),
        0 <= at < dirs.len(),
    ensures
        dir_present(dirs, dirs[at].0@),
        dir_position(dirs, dirs[at].0@) == at,
        dir_sums(dirs, dirs[at].0@) == dirs[at].1@,
{
    let key = dirs[at].0@;
}

/// A name that stands between its neighbours in the order is not among
/// the directories.
proof fn lemma_dir_absent(dirs: Seq<(String, Vec<ExactSum>)>, at: int, key: Seq<char>)
    requires
        dirs_in_order(dirs),
        0 <= at <= dirs.len(),
        forall|i: int| 0 <= i < at ==> key_lt((#[trigger] dirs[i]).0@, key),
        at < dirs.len() ==> key_lt(key, dirs[at].0@),
    ensures
        !dir_present(dirs, key),
        forall|i: int| at <= i < dirs.len() ==> key_lt(key, (#[trigger] dirs[i]).0@),
{
    assert forall|i: int| at <= i < dirs.len() implies key_lt(key, (#[trigger] dirs[i]).0@) by {
        if at < i {
            lemma_key_lt_transitive(key, dirs[at].0@, dirs[i].0@);
        }
    }
    if dir_present(dirs, key) {
        let i = dir_position(dirs, key);
    }
}

/// A directory that is put in at its place in the order joins the
/// others, which keep their sums.
proof fn lemma_dirs_insert(
    before: Seq<(String, Vec<ExactSum>)>,
    at: int,
    entry: (String, Vec<ExactSum>),
)
    requires
        dirs_in_order(before),
        0 <= at <= before.len(),
        forall|i: int| 0 <= i < at ==> key_lt((#[trigger] before[i]).0@, entry.0@),
        at < before.len() ==> key_lt(entry.0@, before[at].0@),
        sums_in_order(entry.1@),
    ensures
        dirs_in_order(before.insert(at, entry)),
        !dir_present(before, entry.0@),
        forall|k: Seq<char>| #[trigger]
            dir_present(before.insert(at, entry), k) <==> dir_present(before, k) || k == entry.0@,
        dir_sums(before.insert(at, entry), entry.0@) == entry.1@,
        forall|k: Seq<char>|
            k != entry.0@ ==> #[trigger] dir_sums(before.insert(at, entry), k) == dir_sums(
                before,
                k,
            ),
{
    let after = before.insert(at, entry);
    let key = entry.0@;
    lemma_dir_absent(before, at, key);
    lemma_dir_position(after, at);
    assert forall|k: Seq<char>| #[trigger]
        dir_present(after, k) <==> dir_present(before, k) || k == key by {
        if dir_present(before, k) {
            let i = dir_position(before, k);
            if i < at {
                assert(after[i].0@ == k);
            } else {
                assert(after[i + 1] == before[i]);
            }
        }
    }
}

/// A directory whose sums are replaced keeps its place, and the others
/// keep their sums.
proof fn lemma_dirs_replace(
    before: Seq<(String, Vec<ExactSum>)>,
    after: Seq<(String, Vec<ExactSum>)>,
    at: int,
)
    requires
        dirs_in_order(before),
        0 <= at < before.len(),
        after.len() == before.len(),
        forall|i: int| 0 <= i < before.len() && i != at ==> #[trigger] after[i] == before[i],
        after[at].0@ == before[at].0@,
        sums_in_order(after[at].1@),
    ensures
        dirs_in_order(after),
        forall|k: Seq<char>| #[trigger] dir_present(after, k) <==> dir_present(before, k),
        dir_sums(after, before[at].0@) == after[at].1@,
        forall|k: Seq<char>|
            k != before[at].0@ ==> #[trigger] dir_sums(after, k) == dir_sums(before, k),
{
    assert forall|k: Seq<char>| #[trigger] dir_present(after, k) <==> dir_present(before, k) by {
        if dir_present(after, k) {
            let i = dir_position(after, k);
        }
        if dir_present(before, k) {
            let i = dir_position(before, k);
            assert(after[i].0@ == k);
        }
    }
}

/// Sums of scores by directory: for each directory one sum for each run.
#[derive(Clone, Debug)]
pub struct DirTotals {
    dirs: Vec<(String, Vec<ExactSum>)>,
}

impl DirTotals {
    /// The directories with their sums, in ascending order of the names.
    pub closed spec fn spec_dirs(&self) -> Seq<(String, Vec<ExactSum>)> {
        self.dirs@
    }

    /// The sums are in order: see [`dirs_in_order`].
    pub open spec fn wf(&self) -> bool {
        dirs_in_order(self.spec_dirs())
    }

    /// The directory `key` has sums.
    pub open spec fn contains(&self, key: Seq<char>) -> bool {
        dir_present(self.spec_dirs(), key)
    }

    /// The sums of the directory `key`, run by run.
    pub open spec fn sums(&self, key: Seq<char>) -> Seq<ExactSum> {
        dir_sums(self.spec_dirs(), key)
    }

    /// The number of runs that the directory `key` has sums for.
    pub open spec fn width(&self, key: Seq<char>) -> nat {
        self.sums(key).len()
    }

    /// The number of parts of `den` in the sum of the run `slot` in the
    /// directory `key`.
    pub open spec fn parts(&self, key: Seq<char>, slot: int, den: int) -> nat {
        sum_parts(self.sums(key), slot, den)
    }

    /// Both hold the same directories with the same sums.
    pub open spec fn same_as(&self, other: DirTotals) -> bool {
        &&& forall|k: Seq<char>| #[trigger] self.contains(k) <==> other.contains(k)
        &&& forall|k: Seq<char>| #[trigger] self.sums(k) == other.sums(k)
    }

    /// No directory yet.
    pub fn new() -> (totals: DirTotals)
        ensures
            totals.wf(),
            totals.spec_dirs().len() == 0,
            forall|key: Seq<char>| !totals.contains(key),
    {
        DirTotals { dirs: Vec::new() }
    }

    /// The directories with their sums.
    pub fn dirs(&self) -> (dirs: &Vec<(String, Vec<ExactSum>)>)
        ensures
            dirs@ == self.spec_dirs(),
    {
        &self.dirs
    }

    /// Finds the place of the directory `key` in the order: where it
    /// stands, or where it would.
    fn find(&self, key: &str) -> (found: (usize, bool))
        requires
            self.wf(),
        ensures
            found.0 <= self.spec_dirs().len(),
            forall|i: int| 0 <= i < found.0 ==> key_lt((#[trigger] self.spec_dirs()[i]).0@, key@),
            found.1 ==> found.0 < self.spec_dirs().len() && self.spec_dirs()[found.0 as int].0@
                == key@,
            !found.1 && found.0 < self.spec_dirs().len() ==> key_lt(
                key@,
                self.spec_dirs()[found.0 as int].0@,
            ),
            found.1 <==> self.contains(key@),
            found.1 ==> self.sums(key@) == self.spec_dirs()[found.0 as int].1@,
    {
        let n = self.dirs.len();
        let mut at: usize = 0;
        let mut end: usize = n;
        while at < end
            invariant
                n == self.dirs@.len(),
                at <= end <= n,
                dirs_in_order(self.dirs@),
                forall|i: int| 0 <= i < at ==> key_lt((#[trigger] self.dirs@[i]).0@, key@),
                forall|i: int| end <= i < n ==> !key_lt((#[trigger] self.dirs@[i]).0@, key@),
            decreases end - at,
        {
            let mid = at + (end - at) / 2;
            if key_less(self.dirs[mid].0.as_str(), key) {
                proof {
                    assert forall|i: int| 0 <= i <= mid implies key_lt(
                        (#[trigger] self.dirs@[i]).0@,
                        key@,
                    ) by {
                        if i < mid {
                            lemma_key_lt_transitive(
                                self.dirs@[i].0@,
                                self.dirs@[mid as int].0@,
                                key@,
                            );
                        }
                    }
                }
                at = mid + 1;
            } else {
                proof {
                    assert forall|i: int| mid <= i < n implies !key_lt(
                        (#[trigger] self.dirs@[i]).0@,
                        key@,
                    ) by {
                        if mid < i && key_lt(self.dirs@[i].0@, key@) {
                            lemma_key_lt_transitive(
                                self.dirs@[mid as int].0@,
                                self.dirs@[i].0@,
                                key@,
                            );
                        }
                    }
                }
                end = mid;
            }
        }
        let found = at < n && same_id(self.dirs[at].0.as_str(), key);
        proof {
            if !found && at < n {
                lemma_key_lt_total(self.dirs@[at as int].0@, key@);
            }
        }
        (at, found)
    }

    /// The sums of the directory `key`, run by run, if it has any.
    pub fn get(&self, key: &str) -> (sums: Option<&Vec<ExactSum>>)
        requires
            self.wf(),
        ensures
            match sums {
                Some(sums) => self.contains(key@) && sums@ == self.sums(key@),
                None => !self.contains(key@),
            },
    {
        let (at, found) = self.find(key);
        if found {
            Some(&self.dirs[at].1)
        } else {
            None
        }
    }

    /// Adds the scores of one test to the sums of the directory `key`, run
    /// by run. A directory that is new starts with empty sums.
    ///
    /// Fails, and leaves the sums as they are, where a sum would hold more
    /// parts of a whole than it can count.
    pub fn add(&mut self, key: &str, scores: &[Fraction]) -> (done: Result<(), ScoreError>)
        requires
            old(self).wf(),
            old(self).contains(key@) ==> old(self).width(key@) == scores@.len(),
        ensures
            final(self).wf(),
            match done {
                Ok(()) => {
                    &&& forall|k: Seq<char>| #[trigger]
                        final(self).contains(k) <==> old(self).contains(k) || k == key@
                    &&& final(self).width(key@) == scores@.len()
                    &&& forall|k: Seq<char>|
                        k != key@ ==> #[trigger] final(self).sums(k) == old(self).sums(k)
                    &&& forall|slot: int, den: int| #[trigger]
                        final(self).parts(key@, slot, den) == old(self).parts(key@, slot, den)
                            + scores_parts(scores@, slot, den)
                },
                Err(e) => {
                    &&& e == ScoreError::TooManySubtests
                    &&& exists|slot: int|
                        0 <= slot < scores@.len() && old(self).parts(
                            key@,
                            slot,
                            (#[trigger] scores@[slot]).den as int,
                        ) + scores@[slot].num > u128::MAX
                    &&& final(self).same_as(*old(self))
                },
            },
    {
        let ghost before = self.dirs@;
        let (at, found) = self.find(key);
        if found {
            let done = add_scores(&mut self.dirs[at].1, scores);
            proof {
                lemma_dirs_replace(before, self.dirs@, at as int);
            }
            done
        } else {
            let mut sums: Vec<ExactSum> = Vec::new();
            let done = add_scores(&mut sums, scores);
            assert(done is Ok);
            let name = key.to_owned();
            self.dirs.insert(at, (name, sums));
            proof {
                lemma_dirs_insert(before, at as int, self.dirs@[at as int]);
            }
            Ok(())
        }
    }

    /// Adds all sums of `other`, directory by directory and run by run. A
    /// directory that is new comes with the sums that it has in `other`.
    ///
    /// Fails, and leaves the sums as they are, where a sum would hold more
    /// parts of a whole than it can count.
    pub fn merge(&mut self, other: DirTotals) -> (done: Result<(), ScoreError>)
        requires
            old(self).wf(),
            other.wf(),
            forall|k: Seq<char>|
                old(self).contains(k) && other.contains(k) ==> #[trigger] old(self).width(k)
                    == other.width(k),
        ensures
            final(self).wf(),
            match done {
                Ok(()) => {
                    &&& forall|k: Seq<char>| #[trigger]
                        final(self).contains(k) <==> old(self).contains(k) || other.contains(k)
                    &&& forall|k: Seq<char>| #[trigger]
                        final(self).width(k) == if old(self).contains(k) {
                            old(self).width(k)
                        } else {
                            other.width(k)
                        }
                    &&& forall|k: Seq<char>, slot: int, den: int| #[trigger]
                        final(self).parts(k, slot, den) == old(self).parts(k, slot, den)
                            + other.parts(k, slot, den)
                },
                Err(e) => {
                    &&& e == ScoreError::TooManySubtests
                    &&& exists|k: Seq<char>, slot: int, den: int|
                        (#[trigger] old(self).parts(k, slot, den)) + other.parts(k, slot, den)
                            > u128::MAX
                    &&& final(self).same_as(*old(self))
                },
            },
    {
        let ghost before = self.dirs@;
        let ghost others = other.dirs@;
        let m = other.dirs.len();
        let mut i: usize = 0;
        proof {
            assert forall|k: Seq<char>|
                dir_present(before, k) && dir_present(others, k) implies #[trigger] dir_sums(
                before,
                k,
            ).len() == dir_sums(others, k).len() by {
                assert(old(self).width(k) == other.width(k));
            }
        }
        while i < m
            invariant
                self.dirs@ == before,
                before == old(self).spec_dirs(),
                others == other.dirs@,
                m == others.len(),
                i <= m,
                dirs_in_order(before),
                dirs_in_order(others),
                forall|k: Seq<char>|
                    dir_present(before, k) && dir_present(others, k) ==> #[trigger] dir_sums(
                        before,
                        k,
                    ).len() == dir_sums(others, k).len(),
                forall|j: int, slot: int, den: int|
                    0 <= j < i ==> sum_parts(dir_sums(before, (#[trigger] others[j]).0@), slot, den)
                        + #[trigger] sum_parts(others[j].1@, slot, den) <= u128::MAX,
            decreases m - i,
        {
            let (at, found) = self.find(other.dirs[i].0.as_str());
            let ghost key = others[i as int].0@;
            if found {
                let width = other.dirs[i].1.len();
                let mut slot: usize = 0;
                while slot < width
                    invariant
                        self.dirs@ == before,
                        before == old(self).spec_dirs(),
                        dirs_in_order(before),
                        others == other.dirs@,
                        i < others.len(),
                        key == others[i as int].0@,
                        at < before.len(),
                        dir_sums(before, key) == before[at as int].1@,
                        dir_sums(others, key) == others[i as int].1@,
                        before[at as int].1@.len() == width,
                        others[i as int].1@.len() == width,
                        sums_in_order(before[at as int].1@),
                        sums_in_order(others[i as int].1@),
                        slot <= width,
                        forall|t: int, den: int|
                            0 <= t < slot ==> #[trigger] before[at as int].1@[t].parts(den)
                                + others[i as int].1@[t].parts(den) <= u128::MAX,
                    decreases width - slot,
                {
                    if !self.dirs[at].1[slot].fits(&other.dirs[i].1[slot]) {
                        proof {
                            let den = choose|den: int|
                                before[at as int].1@[slot as int].parts(den)
                                    + others[i as int].1@[slot as int].parts(den) > u128::MAX;
                            assert(old(self).parts(key, slot as int, den) + other.parts(
                                key,
                                slot as int,
                                den,
                            ) > u128::MAX);
                        }
                        return Err(ScoreError::TooManySubtests);
                    }
                    slot += 1;
                }
            } else {
                proof {
                    assert forall|slot: int, den: int| #[trigger]
                        sum_parts(others[i as int].1@, slot, den) <= u128::MAX by {
                        if 0 <= slot < others[i as int].1@.len() {
                            lemma_parts_fit(others[i as int].1@[slot].spec_terms(), den);
                        }
                    }
                }
            }
            i += 1;
        }
        let mut rest = other.dirs;
        while rest.len() > 0
            invariant
                dirs_in_order(before),
                dirs_in_order(others),
                self.wf(),
                rest@ == others.take(rest@.len() as int),
                rest@.len() <= others.len(),
                forall|k: Seq<char>|
                    dir_present(before, k) && dir_present(others, k) ==> #[trigger] dir_sums(
                        before,
                        k,
                    ).len() == dir_sums(others, k).len(),
                forall|j: int, slot: int, den: int|
                    0 <= j < others.len() ==> sum_parts(
                        dir_sums(before, (#[trigger] others[j]).0@),
                        slot,
                        den,
                    ) + #[trigger] sum_parts(others[j].1@, slot, den) <= u128::MAX,
                forall|k: Seq<char>| #[trigger]
                    self.contains(k) <==> dir_present(before, k) || tail_present(
                        others,
                        rest@.len() as int,
                        k,
                    ),
                forall|k: Seq<char>|
                    !tail_present(others, rest@.len() as int, k) ==> #[trigger] self.sums(k)
                        == dir_sums(before, k),
                forall|k: Seq<char>|
                    tail_present(others, rest@.len() as int, k) ==> (#[trigger] self.sums(k)).len()
                        == if dir_present(before, k) {
                        dir_sums(before, k).len()
                    } else {
                        dir_sums(others, k).len()
                    },
                forall|k: Seq<char>, slot: int, den: int|
                    tail_present(others, rest@.len() as int, k) ==> #[trigger] sum_parts(
                        self.sums(k),
                        slot,
                        den,
                    ) == sum_parts(dir_sums(before, k), slot, den) + sum_parts(
                        dir_sums(others, k),
                        slot,
                        den,
                    ),
            decreases rest@.len(),
        {
            let ghost from = rest@.len() as int;
            let ghost held = *self;
            let ghost current = self.dirs@;
            let (name, sums) = rest.pop().unwrap();
            let ghost key = name@;
            let (at, found) = self.find(name.as_str());
            if found {
                let done = merge_totals(&mut self.dirs[at].1, sums);
                assert(done is Ok);
                proof {
                    lemma_dirs_replace(current, self.dirs@, at as int);
                }
            } else {
                self.dirs.insert(at, (name, sums));
                proof {
                    lemma_dirs_insert(current, at as int, self.dirs@[at as int]);
                }
            }
            proof {
                assert forall|k: Seq<char>| #[trigger]
                    self.contains(k) <==> dir_present(before, k) || tail_present(
                        others,
                        from - 1,
                        k,
                    ) by {
                    assert(held.contains(k) <==> dir_present(before, k) || tail_present(
                        others,
                        from,
                        k,
                    ));
                }
                assert forall|k: Seq<char>|
                    !tail_present(others, from - 1, k) implies #[trigger] self.sums(k) == dir_sums(
                    before,
                    k,
                ) by {
                    assert(self.sums(k) == held.sums(k));
                }
                assert forall|k: Seq<char>|
                    tail_present(others, from - 1, k) implies (#[trigger] self.sums(k)).len()
                    == if dir_present(before, k) {
                    dir_sums(before, k).len()
                } else {
                    dir_sums(others, k).len()
                } by {
                    if k != key {
                        assert(self.sums(k) == held.sums(k));
                    }
                }
                assert forall|k: Seq<char>, slot: int, den: int|
                    tail_present(others, from - 1, k) implies #[trigger] sum_parts(
                    self.sums(k),
                    slot,
                    den,
                ) == sum_parts(dir_sums(before, k), slot, den) + sum_parts(
                    dir_sums(others, k),
                    slot,
                    den,
                ) by {
                    if k != key {
                        assert(self.sums(k) == held.sums(k));
                    }
                }
            }
        }
        Ok(())
    }
}

/// The directory `key` is among `dirs` at `from` or after it.
pub open spec fn tail_present(
    dirs: Seq<(String, Vec<ExactSum>)>,
    from: int,
    key: Seq<char>,
) -> bool {
    exists|j: int| from <= j < dirs.len() && (#[trigger] dirs[j]).0@ == key
}

/// The parts of `den` that a scored test adds to the sum of the run
/// `slot`: those of the run's score, where the test has scores.
pub open spec fn entry_parts(scored: Result<Vec<Fraction>, ScoreError>, slot: int, den: int) -> nat {
    match scored {
        Ok(scores) => if 0 <= slot < scores@.len() {
            score_parts(scores@[slot], den)
        } else {
            0
        },
        Err(_) => 0,
    }
}

/// The sum of `amount` over the entries of a sequence.
pub open spec fn seq_sum<A>(entries: Seq<A>, amount: spec_fn(A) -> nat) -> nat
    decreases entries.len(),
{
    if entries.len() == 0 {
        0
    } else {
        seq_sum(entries.drop_last(), amount) + amount(entries.last())
    }
}

/// What a scored test adds to the parts of `den` in the sum of the run
/// `slot`.
pub open spec fn column_term<'a>(slot: int, den: int) -> spec_fn(
    (&'a str, Result<Vec<Fraction>, ScoreError>),
) -> nat {
    |entry: (&'a str, Result<Vec<Fraction>, ScoreError>)| entry_parts(entry.1, slot, den)
}

/// The parts of `den` in the sum of the scores of the run `slot` over all
/// tests.
pub open spec fn column_parts(
    scored: Seq<(&str, Result<Vec<Fraction>, ScoreError>)>,
    slot: int,
    den: int,
) -> nat {
    seq_sum(scored, column_term(slot, den))
}

/// An entry that is taken out takes its amount with it.
pub proof fn lemma_seq_sum_remove<A>(entries: Seq<A>, at: int, amount: spec_fn(A) -> nat)
    requires
        0 <= at < entries.len(),
    ensures
        seq_sum(entries, amount) == seq_sum(entries.remove(at), amount) + amount(entries[at]),
    decreases entries.len(),
{
    if at < entries.len() - 1 {
        assert(entries.remove(at).drop_last() =~= entries.drop_last().remove(at));
        lemma_seq_sum_remove(entries.drop_last(), at, amount);
    }
}

/// The sum over one sequence followed by another is the sum of their sums.
pub proof fn lemma_seq_sum_concat<A>(first: Seq<A>, second: Seq<A>, amount: spec_fn(A) -> nat)
    ensures
        seq_sum(first + second, amount) == seq_sum(first, amount) + seq_sum(second, amount),
    decreases second.len(),
{
    if second.len() > 0 {
        assert((first + second).drop_last() =~= first + second.drop_last());
        lemma_seq_sum_concat(first, second.drop_last(), amount);
    }
}

/// The sum does not depend on the order of the entries.
pub proof fn lemma_seq_sum_permutation<A>(p: Seq<A>, q: Seq<A>, amount: spec_fn(A) -> nat)
    requires
        p.to_multiset() == q.to_multiset(),
    ensures
        seq_sum(p, amount) == seq_sum(q, amount),
    decreases p.len(),
{
    p.to_multiset_ensures();
    q.to_multiset_ensures();
    if p.len() > 0 {
        let x = p.last();
        assert(p.to_multiset().count(x) > 0);
        let at = choose|at: int| 0 <= at < q.len() && q[at] == x;
        assert(p.remove(p.len() - 1) =~= p.drop_last());
        lemma_seq_sum_permutation(p.drop_last(), q.remove(at), amount);
        lemma_seq_sum_remove(q, at, amount);
    }
}

/// A sum of amounts that are bounded is bounded by as many times the
/// bound as there are entries.
pub proof fn lemma_seq_sum_bound<A>(entries: Seq<A>, amount: spec_fn(A) -> nat, bound: nat)
    requires
        forall|i: int| 0 <= i < entries.len() ==> amount(#[trigger] entries[i]) <= bound,
    ensures
        seq_sum(entries, amount) <= entries.len() * bound,
    decreases entries.len(),
{
    if entries.len() > 0 {
        let front = entries.drop_last();
        lemma_seq_sum_bound(front, amount, bound);
        assert(entries.len() * bound == front.len() * bound + bound) by (nonlinear_arith)
            requires
                entries.len() == front.len() + 1,
        ;
    }
}

/// The error of the first test that has no scores, if there is one.
pub open spec fn first_error(scored: Seq<(&str, Result<Vec<Fraction>, ScoreError>)>) -> Option<
    ScoreError,
>
    decreases scored.len(),
{
    if scored.len() == 0 {
        None
    } else {
        match first_error(scored.drop_last()) {
            Some(e) => Some(e),
            None => match scored.last().1 {
                Ok(_) => None,
                Err(e) => Some(e),
            },
        }
    }
}

/// Some test has no scores where, and only where, there is a first one.
pub proof fn lemma_first_error(scored: Seq<(&str, Result<Vec<Fraction>, ScoreError>)>)
    ensures
        first_error(scored) is None <==> forall|i: int|
            0 <= i < scored.len() ==> (#[trigger] scored[i]).1 is Ok,
    decreases scored.len(),
{
    if scored.len() > 0 {
        let front = scored.drop_last();
        lemma_first_error(front);
        if first_error(scored) is None {
            assert forall|i: int| 0 <= i < scored.len() implies (#[trigger] scored[i]).1 is Ok by {
                if i < front.len() {
                    assert(front[i] == scored[i]);
                }
            }
        }
    }
}

/// The first error among the tests is the first error among those up to
/// any test that has one.
pub proof fn lemma_first_error_prefix(
    scored: Seq<(&str, Result<Vec<Fraction>, ScoreError>)>,
    upto: int,
)
    requires
        0 <= upto <= scored.len(),
        first_error(scored.take(upto)) is Some,
    ensures
        first_error(scored) == first_error(scored.take(upto)),
    decreases scored.len() - upto,
{
    if upto < scored.len() {
        assert(scored.take(upto + 1).drop_last() =~= scored.take(upto));
        lemma_first_error_prefix(scored, upto + 1);
    } else {
        assert(scored.take(upto) =~= scored);
    }
}

/// What a scored test adds to the parts of `den` in the sum of the run
/// `slot` in the directory `key`: the parts of its score, once for each
/// time that the test counts for the directory.
pub open spec fn dir_term<'a>(recursive: bool, key: Seq<char>, slot: int, den: int) -> spec_fn(
    (&'a str, Result<Vec<Fraction>, ScoreError>),
) -> nat {
    |entry: (&'a str, Result<Vec<Fraction>, ScoreError>)|
        dir_keys(entry.0@, recursive).to_multiset().count(key) * entry_parts(entry.1, slot, den)
}

/// The parts of `den` in the sum of the scores of the run `slot` over the
/// tests of the directory `key`.
pub open spec fn dir_parts(
    scored: Seq<(&str, Result<Vec<Fraction>, ScoreError>)>,
    recursive: bool,
    key: Seq<char>,
    slot: int,
    den: int,
) -> nat {
    seq_sum(scored, dir_term(recursive, key, slot, den))
}

/// Some test counts for the directory `key`.
pub open spec fn in_some_dir(
    scored: Seq<(&str, Result<Vec<Fraction>, ScoreError>)>,
    recursive: bool,
    key: Seq<char>,
) -> bool {
    exists|i: int|
        0 <= i < scored.len() && dir_keys((#[trigger] scored[i]).0@, recursive).contains(key)
}

/// A sum over the first entries is at most the sum over all.
pub proof fn lemma_seq_sum_prefix<A>(entries: Seq<A>, amount: spec_fn(A) -> nat, upto: int)
    requires
        0 <= upto <= entries.len(),
    ensures
        seq_sum(entries.take(upto), amount) <= seq_sum(entries, amount),
{
    assert(entries.take(upto) + entries.skip(upto) =~= entries);
    lemma_seq_sum_concat(entries.take(upto), entries.skip(upto), amount);
}

/// The sum over the first entries and one more.
pub proof fn lemma_seq_sum_step<A>(entries: Seq<A>, amount: spec_fn(A) -> nat, upto: int)
    requires
        0 <= upto < entries.len(),
    ensures
        seq_sum(entries.take(upto + 1), amount) == seq_sum(entries.take(upto), amount) + amount(
            entries[upto],
        ),
{
    assert(entries.take(upto + 1).drop_last() =~= entries.take(upto));
}

/// The directories that the first tests and one more count for.
pub proof fn lemma_in_some_dir_step(
    scored: Seq<(&str, Result<Vec<Fraction>, ScoreError>)>,
    recursive: bool,
    upto: int,
    key: Seq<char>,
)
    requires
        0 <= upto < scored.len(),
    ensures
        in_some_dir(scored.take(upto + 1), recursive, key) <==> in_some_dir(
            scored.take(upto),
            recursive,
            key,
        ) || dir_keys(scored[upto].0@, recursive).contains(key),
{
    let shorter = scored.take(upto);
    let longer = scored.take(upto + 1);
    if dir_keys(scored[upto].0@, recursive).contains(key) {
        assert(longer[upto] == scored[upto]);
    }
}

/// One more of a test's directories: it counts once more for that one.
pub proof fn lemma_count_step(keys: Seq<Seq<char>>, upto: int, key: Seq<char>)
    requires
        0 <= upto < keys.len(),
    ensures
        keys.take(upto + 1).to_multiset().count(key) == keys.take(upto).to_multiset().count(key)
            + if keys[upto] == key {
            1int
        } else {
            0int
        },
        keys.take(upto + 1).contains(key) <==> keys.take(upto).contains(key) || keys[upto] == key,
{
    let shorter = keys.take(upto);
    let longer = keys.take(upto + 1);
    assert(longer =~= shorter.push(keys[upto]));
    shorter.to_multiset_ensures();
    if keys[upto] == key {
        assert(longer[upto] == key);
    }
}

/// A test counts for a directory at least as often as its first
/// directories name it.
pub proof fn lemma_count_prefix(keys: Seq<Seq<char>>, upto: int, key: Seq<char>)
    requires
        0 <= upto <= keys.len(),
    ensures
        keys.take(upto).to_multiset().count(key) <= keys.to_multiset().count(key),
{
    assert(keys.take(upto) + keys.skip(upto) =~= keys);
    vstd::seq_lib::lemma_multiset_commutative(keys.take(upto), keys.skip(upto));
}

/// The sums of the runs over tests with valid scores can be counted,
/// however many tests a slice may hold.
pub proof fn lemma_valid_total_fits(
    scored: Seq<(&str, Result<Vec<Fraction>, ScoreError>)>,
    slot: int,
    den: int,
)
    requires
        scored.len() <= usize::MAX,
        forall|i: int|
            0 <= i < scored.len() ==> ((#[trigger] scored[i]).1 matches Ok(scores)
                ==> valid_scores(scores@)),
    ensures
        column_parts(scored, slot, den) <= u128::MAX,
{
    lemma_seq_sum_bound(scored, column_term(slot, den), MAX_EXACT_COUNT as nat);
    assert(scored.len() * MAX_EXACT_COUNT <= u128::MAX) by (nonlinear_arith)
        requires
            scored.len() <= usize::MAX,
            usize::MAX <= 0xffff_ffff_ffff_ffff,
            MAX_EXACT_COUNT == 9_007_199_254_740_992,
    ;
}

/// The sums of the runs do not depend on the order in which the tests
/// arrive, nor does it whether every test has scores.
pub proof fn lemma_total_order_insensitive(
    p: Seq<(&str, Result<Vec<Fraction>, ScoreError>)>,
    q: Seq<(&str, Result<Vec<Fraction>, ScoreError>)>,
    slot: int,
    den: int,
)
    requires
        p.to_multiset() == q.to_multiset(),
    ensures
        column_parts(p, slot, den) == column_parts(q, slot, den),
        first_error(p) is None <==> first_error(q) is None,
        p.len() == q.len(),
{
    lemma_seq_sum_permutation(p, q, column_term(slot, den));
    if first_error(p) is None {
        lemma_all_scored_permutation(p, q);
    }
    if first_error(q) is None {
        lemma_all_scored_permutation(q, p);
    }
    p.to_multiset_ensures();
    q.to_multiset_ensures();
}

/// Sums of the runs that were added up over the same tests in two orders
/// hold the same terms, run by run.
pub proof fn lemma_totals_identical(
    p: Seq<(&str, Result<Vec<Fraction>, ScoreError>)>,
    q: Seq<(&str, Result<Vec<Fraction>, ScoreError>)>,
    over_p: Seq<ExactSum>,
    over_q: Seq<ExactSum>,
)
    requires
        p.to_multiset() == q.to_multiset(),
        sums_in_order(over_p),
        sums_in_order(over_q),
        over_p.len() == over_q.len(),
        forall|slot: int, den: int| #[trigger]
            sum_parts(over_p, slot, den) == column_parts(p, slot, den),
        forall|slot: int, den: int| #[trigger]
            sum_parts(over_q, slot, den) == column_parts(q, slot, den),
    ensures
        forall|slot: int|
            0 <= slot < over_p.len() ==> (#[trigger] over_p[slot]).spec_terms()
                == over_q[slot].spec_terms(),
{
    assert forall|slot: int| 0 <= slot < over_p.len() implies (#[trigger] over_p[slot]).spec_terms()
        == over_q[slot].spec_terms() by {
        assert forall|den: int|
            parts_in(over_p[slot].spec_terms(), den) == parts_in(
                over_q[slot].spec_terms(),
                den,
            ) by {
            lemma_total_order_insensitive(p, q, slot, den);
            assert(sum_parts(over_p, slot, den) == column_parts(p, slot, den));
            assert(sum_parts(over_q, slot, den) == column_parts(q, slot, den));
        }
        lemma_canonical_unique(over_p[slot].spec_terms(), over_q[slot].spec_terms());
    }
}

/// Where every test of `p` has scores, so has every test of a sequence
/// that holds the same tests.
proof fn lemma_all_scored_permutation(
    p: Seq<(&str, Result<Vec<Fraction>, ScoreError>)>,
    q: Seq<(&str, Result<Vec<Fraction>, ScoreError>)>,
)
    requires
        p.to_multiset() == q.to_multiset(),
        first_error(p) is None,
    ensures
        first_error(q) is None,
{
    lemma_first_error(p);
    lemma_first_error(q);
    p.to_multiset_ensures();
    q.to_multiset_ensures();
    assert forall|i: int| 0 <= i < q.len() implies (#[trigger] q[i]).1 is Ok by {
        assert(q.to_multiset().count(q[i]) > 0);
    }
}

/// The sums of the runs over one batch of tests followed by another are
/// the sums over the first batch plus the sums over the second.
pub proof fn lemma_total_additive(
    first: Seq<(&str, Result<Vec<Fraction>, ScoreError>)>,
    second: Seq<(&str, Result<Vec<Fraction>, ScoreError>)>,
    slot: int,
    den: int,
)
    ensures
        column_parts(first + second, slot, den) == column_parts(first, slot, den) + column_parts(
            second,
            slot,
            den,
        ),
{
    lemma_seq_sum_concat(first, second, column_term(slot, den));
}

/// The sums of the directories do not depend on the order in which the
/// tests arrive: neither what a sum holds, nor which directories there
/// are.
pub proof fn lemma_by_dir_order_insensitive(
    p: Seq<(&str, Result<Vec<Fraction>, ScoreError>)>,
    q: Seq<(&str, Result<Vec<Fraction>, ScoreError>)>,
    recursive: bool,
    key: Seq<char>,
    slot: int,
    den: int,
)
    requires
        p.to_multiset() == q.to_multiset(),
    ensures
        dir_parts(p, recursive, key, slot, den) == dir_parts(q, recursive, key, slot, den),
        in_some_dir(p, recursive, key) <==> in_some_dir(q, recursive, key),
{
    lemma_seq_sum_permutation(p, q, dir_term(recursive, key, slot, den));
    lemma_in_some_dir_permutation(p, q, recursive, key);
    lemma_in_some_dir_permutation(q, p, recursive, key);
}

/// A directory that some test of `p` counts for is one that some test
/// counts for in any sequence that holds the same tests.
proof fn lemma_in_some_dir_permutation(
    p: Seq<(&str, Result<Vec<Fraction>, ScoreError>)>,
    q: Seq<(&str, Result<Vec<Fraction>, ScoreError>)>,
    recursive: bool,
    key: Seq<char>,
)
    requires
        p.to_multiset() == q.to_multiset(),
    ensures
        in_some_dir(p, recursive, key) ==> in_some_dir(q, recursive, key),
{
    if in_some_dir(p, recursive, key) {
        let i = choose|i: int|
            0 <= i < p.len() && dir_keys((#[trigger] p[i]).0@, recursive).contains(key);
        p.to_multiset_ensures();
        q.to_multiset_ensures();
        assert(p.to_multiset().count(p[i]) > 0);
    }
}

/// The sums of a directory over one batch of tests followed by another
/// are the sums over the first batch plus the sums over the second.
pub proof fn lemma_by_dir_additive(
    first: Seq<(&str, Result<Vec<Fraction>, ScoreError>)>,
    second: Seq<(&str, Result<Vec<Fraction>, ScoreError>)>,
    recursive: bool,
    key: Seq<char>,
    slot: int,
    den: int,
)
    ensures
        dir_parts(first + second, recursive, key, slot, den) == dir_parts(
            first,
            recursive,
            key,
            slot,
            den,
        ) + dir_parts(second, recursive, key, slot, den),
{
    lemma_seq_sum_concat(first, second, dir_term(recursive, key, slot, den));
}

} // verus!
