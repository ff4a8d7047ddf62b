//! Lining up the records of several runs by identifier.
//!
//! Every run lists its records in an order of its own. [`AlignedResults`]
//! walks all runs at once and hands out, identifier by identifier, the
//! records that each run holds under that identifier.

use crate::order::{
    key_less, key_lt, lemma_key_le_lt, lemma_key_lt_irreflexive, lemma_key_lt_le,
    lemma_key_lt_total, lemma_key_lt_transitive, same_id,
};
use crate::wptreport::{SubtestResult, TestResult};
use vstd::prelude::*;
use vstd::string::*;
use vstd::utf8::*;

verus! {

/// A record that is found by an identifier.
pub trait TestName {
    /// The identifier, as the characters it is made of.
    spec fn spec_id(&self) -> Seq<char>;

    /// The identifier.
    fn id(&self) -> (id: &str)
        ensures
            id@ == self.spec_id(),
    ;
}

impl TestName for TestResult {
    open spec fn spec_id(&self) -> Seq<char> {
        self.test@
    }

    fn id(&self) -> (id: &str) {
        self.test.as_str()
    }
}

impl TestName for SubtestResult {
    open spec fn spec_id(&self) -> Seq<char> {
        self.name@
    }

    fn id(&self) -> (id: &str) {
        self.name.as_str()
    }
}

/// The records behind a sequence of references.
pub open spec fn values<T>(refs: Seq<&T>) -> Seq<T> {
    refs.map_values(|r: &T| *r)
}

/// The records of every run, run by run.
pub open spec fn sources<T>(runs: Seq<&Vec<T>>) -> Seq<Seq<T>> {
    runs.map_values(|run: &Vec<T>| run@)
}

/// The test that a record has the identifier `id`.
pub open spec fn has_id<T: TestName>(id: Seq<char>) -> spec_fn(T) -> bool {
    |r: T| r.spec_id() == id
}

/// The records with the identifier `id`, in the order of `records`.
pub open spec fn with_id<T: TestName>(records: Seq<T>, id: Seq<char>) -> Seq<T> {
    records.filter(has_id(id))
}

/// Some run holds a record with the identifier `id`.
pub open spec fn occurs<T: TestName>(runs: Seq<Seq<T>>, id: Seq<char>) -> bool {
    exists|s: int, k: int|
        0 <= s < runs.len() && 0 <= k < runs[s].len() && #[trigger] runs[s][k].spec_id() == id
}

/// `id` is still to come after `last`, the identifier handed out last, if
/// any was.
pub open spec fn above(last: Option<Seq<char>>, id: Seq<char>) -> bool {
    match last {
        None => true,
        Some(l) => key_lt(l, id),
    }
}

/// `id` is the identifier that follows `last`: the least one in `runs` that
/// is still to come.
pub open spec fn follows<T: TestName>(
    runs: Seq<Seq<T>>,
    last: Option<Seq<char>>,
    id: Seq<char>,
) -> bool {
    &&& occurs(runs, id)
    &&& above(last, id)
    &&& forall|other: Seq<char>| #[trigger]
        occurs(runs, other) && above(last, other) ==> !key_lt(other, id)
}

/// No record comes before an earlier one in the order of identifiers.
pub open spec fn key_sorted<T: TestName>(records: Seq<T>) -> bool {
    forall|i: int, j: int|
        0 <= i < j < records.len() ==> !key_lt(
            #[trigger] records[j].spec_id(),
            #[trigger] records[i].spec_id(),
        )
}

/// `after` holds the records of `before`, ordered by identifier, and those
/// with one identifier in the order that they have in `before`.
pub open spec fn is_stable_sort<T: TestName>(before: Seq<T>, after: Seq<T>) -> bool {
    &&& key_sorted(after)
    &&& after.to_multiset() == before.to_multiset()
    &&& forall|id: Seq<char>| #[trigger] with_id(after, id) == with_id(before, id)
}

/// The identifiers under which any run holds a record.
pub open spec fn names<T: TestName>(runs: Seq<Seq<T>>) -> Set<Seq<char>> {
    Set::new(|id: Seq<char>| occurs(runs, id))
}

/// The runs hold finitely many identifiers.
pub proof fn lemma_names_finite<T: TestName>(runs: Seq<Seq<T>>)
    ensures
        names(runs).finite(),
    decreases runs.len(),
{
    if runs.len() == 0 {
        assert(names(runs) =~= Set::<Seq<char>>::empty());
    } else {
        let front = runs.drop_last();
        let ids = runs.last().map_values(|r: T| r.spec_id());
        lemma_names_finite(front);
        assert forall|id: Seq<char>|
            names(runs).contains(id) <==> names(front).contains(id) || ids.to_set().contains(
                id,
            ) by {
            if occurs(runs, id) {
                let (s, k) = choose|s: int, k: int|
                    0 <= s < runs.len() && 0 <= k < runs[s].len() && #[trigger] runs[s][k].spec_id()
                        == id;
                if s < front.len() {
                    assert(front[s][k].spec_id() == id);
                } else {
                    assert(ids[k] == id);
                }
            }
        }
        assert(names(runs) =~= names(front).union(ids.to_set()));
    }
}

/// What each run lists under the identifier `id`.
pub open spec fn group_of<T: TestName>(runs: Seq<Seq<T>>, id: Seq<char>) -> Seq<Seq<T>> {
    runs.map_values(|run: Seq<T>| with_id(run, id))
}

/// Each identifier comes before all later ones.
pub open spec fn ascending(ids: Seq<Seq<char>>) -> bool {
    forall|i: int, j: int| 0 <= i < j < ids.len() ==> key_lt(ids[i], ids[j])
}

/// `ids` lists, in ascending order, the identifiers of `runs` up to `last`.
pub open spec fn walked<T: TestName>(
    runs: Seq<Seq<T>>,
    last: Option<Seq<char>>,
    ids: Seq<Seq<char>>,
) -> bool {
    &&& ascending(ids)
    &&& forall|id: Seq<char>| #[trigger] ids.contains(id) <==> occurs(runs, id) && !above(last, id)
}

/// Identifiers in ascending order are all different.
pub proof fn lemma_ascending_distinct(ids: Seq<Seq<char>>)
    requires
        ascending(ids),
    ensures
        ids.no_duplicates(),
{
    assert forall|i: int, j: int| 0 <= i < ids.len() && 0 <= j < ids.len() && i != j implies ids[i]
        != ids[j] by {
        lemma_key_lt_irreflexive(ids[i]);
    }
}

/// The identifier that follows `last` extends the list.
pub proof fn lemma_walk_step<T: TestName>(
    runs: Seq<Seq<T>>,
    last: Option<Seq<char>>,
    ids: Seq<Seq<char>>,
    id: Seq<char>,
)
    requires
        walked(runs, last, ids),
        follows(runs, last, id),
    ensures
        walked(runs, Some(id), ids.push(id)),
        !ids.contains(id),
{
    let longer = ids.push(id);
    assert forall|i: int, j: int| 0 <= i < j < longer.len() implies key_lt(
        longer[i],
        longer[j],
    ) by {
        if j == ids.len() {
            assert(ids.contains(ids[i]));
            lemma_key_le_lt(ids[i], last->0, id);
        }
    }
    assert forall|other: Seq<char>| #[trigger]
        longer.contains(other) <==> occurs(runs, other) && !above(Some(id), other) by {
        if longer.contains(other) {
            let i = choose|i: int| 0 <= i < longer.len() && longer[i] == other;
            if i < ids.len() {
                assert(ids.contains(ids[i]));
                lemma_key_le_lt(other, last->0, id);
            }
        }
        if occurs(runs, other) && !key_lt(id, other) {
            if other == id {
                assert(longer[ids.len() as int] == other);
            } else {
                lemma_key_lt_total(id, other);
                assert(ids.contains(other));
                let i = choose|i: int| 0 <= i < ids.len() && ids[i] == other;
                assert(longer[i] == other);
            }
        }
    }
}

/// Once no identifier is still to come, the list holds each identifier of
/// the runs once.
pub proof fn lemma_walk_end<T: TestName>(
    runs: Seq<Seq<T>>,
    last: Option<Seq<char>>,
    ids: Seq<Seq<char>>,
)
    requires
        walked(runs, last, ids),
        forall|id: Seq<char>| #[trigger] occurs(runs, id) ==> !above(last, id),
    ensures
        ids.no_duplicates(),
        ids.to_set() == names(runs),
        names(runs).finite(),
        names(runs).len() == ids.len(),
{
    lemma_ascending_distinct(ids);
    ids.unique_seq_to_set();
}

/// Of a list without repetitions, as many entries pass a test as the set of
/// its entries has members that pass it.
pub proof fn lemma_filter_count<A>(ids: Seq<A>, pred: spec_fn(A) -> bool)
    requires
        ids.no_duplicates(),
    ensures
        ids.to_set().filter(pred).finite(),
        ids.to_set().filter(pred).len() == ids.filter(pred).len(),
    decreases ids.len(),
{
    reveal(Seq::filter);
    if ids.len() == 0 {
        assert(ids.to_set().filter(pred) =~= Set::<A>::empty());
    } else {
        let front = ids.drop_last();
        let x = ids.last();
        lemma_filter_count(front, pred);
        assert(ids.to_set() =~= front.to_set().insert(x)) by {
            assert forall|a: A| ids.to_set().contains(a) <==> front.to_set().insert(x).contains(
                a,
            ) by {
                if ids.contains(a) {
                    let i = choose|i: int| 0 <= i < ids.len() && ids[i] == a;
                    if i < front.len() {
                        assert(front[i] == a);
                    }
                }
            }
        }
        if pred(x) {
            assert(ids.to_set().filter(pred) =~= front.to_set().filter(pred).insert(x));
        } else {
            assert(ids.to_set().filter(pred) =~= front.to_set().filter(pred));
        }
    }
}

/// One run in the middle of a walk: `sorted` is `source` in order, and
/// `head` parts the records up to `last` from those still to come.
pub open spec fn slot_ok<T: TestName>(
    source: Seq<T>,
    sorted: Seq<T>,
    head: int,
    last: Option<Seq<char>>,
) -> bool {
    &&& is_stable_sort(source, sorted)
    &&& 0 <= head <= sorted.len()
    &&& forall|k: int|
        0 <= k < head ==> last is Some && !key_lt(last->0, #[trigger] sorted[k].spec_id())
    &&& forall|k: int| head <= k < sorted.len() ==> above(last, #[trigger] sorted[k].spec_id())
}

/// Where `pred` holds exactly of the entries from `lo` up to `hi`, filtering
/// by it cuts out that range.
proof fn lemma_filter_range<A>(v: Seq<A>, pred: spec_fn(A) -> bool, lo: int, hi: int)
    requires
        0 <= lo <= hi <= v.len(),
        forall|k: int| 0 <= k < v.len() ==> (pred(#[trigger] v[k]) <==> lo <= k < hi),
    ensures
        v.filter(pred) == v.subrange(lo, hi),
    decreases v.len(),
{
    reveal(Seq::filter);
    if v.len() > 0 {
        let front = v.drop_last();
        if hi == v.len() && lo < hi {
            lemma_filter_range(front, pred, lo, hi - 1);
        } else if hi == v.len() {
            lemma_filter_range(front, pred, lo - 1, hi - 1);
        } else {
            lemma_filter_range(front, pred, lo, hi);
        }
    }
}

/// Every record of a run is found in the run's sorted form.
proof fn lemma_sorted_holds<T: TestName>(source: Seq<T>, sorted: Seq<T>, k: int) -> (at: int)
    requires
        is_stable_sort(source, sorted),
        0 <= k < source.len(),
    ensures
        0 <= at < sorted.len(),
        sorted[at] == source[k],
{
    source.to_multiset_ensures();
    sorted.to_multiset_ensures();
    assert(source.to_multiset().count(source[k]) > 0);
    choose|at: int| 0 <= at < sorted.len() && sorted[at] == source[k]
}

/// Every record of a run's sorted form is a record of the run.
proof fn lemma_source_holds<T: TestName>(source: Seq<T>, sorted: Seq<T>, k: int) -> (at: int)
    requires
        is_stable_sort(source, sorted),
        0 <= k < sorted.len(),
    ensures
        0 <= at < source.len(),
        source[at] == sorted[k],
{
    source.to_multiset_ensures();
    sorted.to_multiset_ensures();
    assert(sorted.to_multiset().count(sorted[k]) > 0);
    choose|at: int| 0 <= at < source.len() && source[at] == sorted[k]
}

/// Handing out the records with the identifier `id`, which sit from `lo` up
/// to `hi` in the sorted run, leaves the run in order again, and those
/// records are the ones that the run lists under `id`.
proof fn lemma_advance<T: TestName>(
    source: Seq<T>,
    sorted: Seq<T>,
    lo: int,
    hi: int,
    last: Option<Seq<char>>,
    id: Seq<char>,
)
    requires
        slot_ok(source, sorted, lo, last),
        above(last, id),
        lo <= hi <= sorted.len(),
        forall|k: int| lo <= k < hi ==> #[trigger] sorted[k].spec_id() == id,
        hi < sorted.len() ==> sorted[hi].spec_id() != id,
        lo < sorted.len() ==> !key_lt(sorted[lo].spec_id(), id),
    ensures
        slot_ok(source, sorted, hi, Some(id)),
        with_id(source, id) == sorted.subrange(lo, hi),
{
    assert forall|k: int| 0 <= k < lo implies !key_lt(id, #[trigger] sorted[k].spec_id())
        && sorted[k].spec_id() != id by {
        let other = sorted[k].spec_id();
        lemma_key_le_lt(other, last->0, id);
    }
    assert forall|k: int| hi <= k < sorted.len() implies key_lt(
        id,
        #[trigger] sorted[k].spec_id(),
    ) by {
        let at_hi = sorted[hi].spec_id();
        let other = sorted[k].spec_id();
        lemma_key_lt_total(id, at_hi);
        if hi < k {
            lemma_key_lt_le(id, at_hi, other);
        }
    }
    let pred = has_id::<T>(id);
    lemma_filter_range(sorted, pred, lo, hi);
    assert(with_id(sorted, id) == with_id(source, id));
}

/// With every run in order, an identifier that heads some run and comes
/// after none of the heads is the one that follows `last`.
proof fn lemma_least_head<T: TestName>(
    source: Seq<Seq<T>>,
    sorted: Seq<Seq<T>>,
    heads: Seq<int>,
    last: Option<Seq<char>>,
    id: Seq<char>,
    at: int,
)
    requires
        sorted.len() == source.len(),
        heads.len() == source.len(),
        forall|s: int|
            0 <= s < source.len() ==> slot_ok(source[s], #[trigger] sorted[s], heads[s], last),
        forall|s: int|
            0 <= s < source.len() && heads[s] < sorted[s].len() ==> !key_lt(
                (#[trigger] sorted[s])[heads[s]].spec_id(),
                id,
            ),
        0 <= at < source.len(),
        heads[at] < sorted[at].len(),
        sorted[at][heads[at]].spec_id() == id,
    ensures
        follows(source, last, id),
{
    lemma_source_holds(source[at], sorted[at], heads[at]);
    assert forall|other: Seq<char>| #[trigger]
        occurs(source, other) && above(last, other) implies !key_lt(other, id) by {
        let (s, k) = choose|s: int, k: int|
            0 <= s < source.len() && 0 <= k < source[s].len() && #[trigger] source[s][k].spec_id()
                == other;
        lemma_sorted_holds(source[s], sorted[s], k);
        let head = sorted[s][heads[s]].spec_id();
        if key_lt(other, id) {
            lemma_key_le_lt(head, other, id);
        }
    }
}

/// With every run read to its end, no identifier is still to come.
proof fn lemma_all_read<T: TestName>(
    source: Seq<Seq<T>>,
    sorted: Seq<Seq<T>>,
    heads: Seq<int>,
    last: Option<Seq<char>>,
)
    requires
        sorted.len() == source.len(),
        heads.len() == source.len(),
        forall|s: int|
            0 <= s < source.len() ==> slot_ok(source[s], #[trigger] sorted[s], heads[s], last),
        forall|s: int| 0 <= s < source.len() ==> heads[s] == (#[trigger] sorted[s]).len(),
    ensures
        forall|id: Seq<char>| #[trigger] occurs(source, id) ==> !above(last, id),
{
    assert forall|id: Seq<char>| #[trigger] occurs(source, id) implies !above(last, id) by {
        let (s, k) = choose|s: int, k: int|
            0 <= s < source.len() && 0 <= k < source[s].len() && #[trigger] source[s][k].spec_id()
                == id;
        lemma_sorted_holds(source[s], sorted[s], k);
    }
}

/// Orders the records by `(length of the identifier, identifier)` with
/// `sort_by_key` of std's slices, the key being [`AlignedResults::sort_key`].
///
/// Believed of std: the slice then holds the same records in ascending order
/// of their keys, a tuple being compared field by field and a string byte by
/// byte, and the sort is stable, so records with equal keys keep their order.
#[verifier::external_body]
fn sort_by_id<'a, T: TestName>(tests: &mut Vec<&'a T>)
    ensures
        is_stable_sort(values(old(tests)@), values(final(tests)@)),
{
    tests.sort_by_key(AlignedResults::<T>::sort_key);
}

/// The runs' records, lined up by identifier.
///
/// Made by [`AlignedResults::new`] and emptied by [`AlignedResults::next`],
/// which hands out one group of records per identifier, in ascending order
/// of the identifiers.
#[derive(Clone)]
#[must_use]
pub struct AlignedResults<'a, T: TestName> {
    /// Per run, its records in ascending order of their identifiers.
    sorted: Vec<Vec<&'a T>>,
    /// Per run, the number of records that were handed out.
    heads: Vec<usize>,
    /// The identifier that was handed out last.
    curr: Option<&'a str>,
    /// Per run, its records in the order in which the run lists them.
    source: Ghost<Seq<Seq<T>>>,
}

impl<'a, T: TestName> AlignedResults<'a, T> {
    /// The runs that are being walked: their records in the order in which
    /// each run lists them.
    pub closed spec fn source(&self) -> Seq<Seq<T>> {
        self.source@
    }

    /// The identifier whose group was handed out last.
    pub closed spec fn last(&self) -> Option<Seq<char>> {
        match self.curr {
            Some(c) => Some(c@),
            None => None,
        }
    }

    /// The number of records that are still to be handed out.
    pub closed spec fn remaining(&self) -> nat {
        unread(self.sorted@, self.heads@)
    }

    /// The walk is in order: every run is sorted, and in every run the
    /// records that were handed out are those up to the last identifier.
    pub closed spec fn wf(&self) -> bool {
        &&& self.sorted@.len() == self.source@.len()
        &&& self.heads@.len() == self.source@.len()
        &&& forall|s: int|
            0 <= s < self.source@.len() ==> slot_ok(
                self.source@[s],
                values(#[trigger] self.sorted@[s]@),
                self.heads@[s] as int,
                self.last(),
            )
    }

    /// The key by which the records of a run are ordered: the length of the
    /// identifier in bytes, then the identifier. Two keys compare as their
    /// identifiers do under [`key_lt`].
    pub fn sort_key<'x>(r: &&'x T) -> (key: (usize, &'x str))
        ensures
            key.0 == encode_utf8(r.spec_id()).len(),
            key.1@ == r.spec_id(),
    {
        let id: &'x str = (*r).id();
        (id.as_bytes().len(), id)
    }

    /// Starts a walk over `test_results`, one entry per run.
    pub fn new(test_results: &[&'a Vec<T>]) -> (aligned: AlignedResults<'a, T>)
        ensures
            aligned.wf(),
            aligned.source() == sources(test_results@),
            aligned.last() is None,
    {
        let mut sorted: Vec<Vec<&'a T>> = Vec::new();
        let mut heads: Vec<usize> = Vec::new();
        let mut s: usize = 0;
        while s < test_results.len()
            invariant
                s <= test_results@.len(),
                sorted@.len() == s,
                heads@.len() == s,
                forall|t: int|
                    0 <= t < s ==> is_stable_sort(
                        test_results@[t]@,
                        values(#[trigger] sorted@[t]@),
                    ),
                forall|t: int| 0 <= t < s ==> #[trigger] heads@[t] == 0,
            decreases test_results@.len() - s,
        {
            let run: &'a Vec<T> = test_results[s];
            let mut tests: Vec<&'a T> = Vec::new();
            let mut k: usize = 0;
            while k < run.len()
                invariant
                    k <= run@.len(),
                    tests@.len() == k,
                    values(tests@) == run@.subrange(0, k as int),
                decreases run@.len() - k,
            {
                tests.push(&run[k]);
                k += 1;
            }
            assert(run@.subrange(0, k as int) =~= run@);
            sort_by_id(&mut tests);
            sorted.push(tests);
            heads.push(0);
            s += 1;
        }
        let ghost source = sources(test_results@);
        AlignedResults { sorted, heads, curr: None, source: Ghost(source) }
    }

    /// Hands out the group of the identifier that follows the last one:
    /// the identifier and, run by run, the records that the run lists under
    /// it, in the run's order. A run that has none gives an empty bucket.
    /// Returns `None` once every identifier has had its turn.
    pub fn next(&mut self) -> (group: Option<(&'a str, Vec<Vec<&'a T>>)>)
        requires
            old(self).wf(),
        ensures
            final(self).wf(),
            final(self).source() == old(self).source(),
            match group {
                None => {
                    &&& final(self).last() == old(self).last()
                    &&& forall|id: Seq<char>| #[trigger]
                        occurs(old(self).source(), id) ==> !above(old(self).last(), id)
                },
                Some((id, buckets)) => {
                    &&& follows(old(self).source(), old(self).last(), id@)
                    &&& final(self).last() == Some(id@)
                    &&& buckets@.len() == old(self).source().len()
                    &&& forall|s: int|
                        0 <= s < buckets@.len() ==> values(#[trigger] buckets@[s]@) == with_id(
                            old(self).source()[s],
                            id@,
                        )
                    &&& final(self).remaining() < old(self).remaining()
                },
            },
    {
        let n = self.sorted.len();
        let ghost source = self.source@;
        let ghost sorted = self.sorted@.map_values(|run: Vec<&'a T>| values(run@));
        let ghost heads = self.heads@.map_values(|h: usize| h as int);
        let ghost last = self.last();
        let mut best: Option<&'a str> = None;
        let ghost mut at: int = 0;
        let mut s: usize = 0;
        while s < n
            invariant
                s <= n,
                n == self.sorted@.len(),
                n == self.heads@.len(),
                n == source.len(),
                sorted == self.sorted@.map_values(|run: Vec<&'a T>| values(run@)),
                heads == self.heads@.map_values(|h: usize| h as int),
                forall|t: int|
                    0 <= t < n ==> slot_ok(source[t], #[trigger] sorted[t], heads[t], last),
                best is None ==> forall|t: int|
                    0 <= t < s ==> heads[t] == (#[trigger] sorted[t]).len(),
                best is Some ==> 0 <= at < s && heads[at] < sorted[at].len()
                    && sorted[at][heads[at]].spec_id() == best->0@,
                best is Some ==> forall|t: int|
                    0 <= t < s && heads[t] < sorted[t].len() ==> !key_lt(
                        (#[trigger] sorted[t])[heads[t]].spec_id(),
                        best->0@,
                    ),
            decreases n - s,
        {
            let head = self.heads[s];
            if head < self.sorted[s].len() {
                let record: &'a T = self.sorted[s][head];
                let candidate: &'a str = record.id();
                match best {
                    None => {
                        best = Some(candidate);
                        proof {
                            at = s as int;
                        }
                    },
                    Some(least) => {
                        if key_less(candidate, least) {
                            proof {
                                assert forall|t: int|
                                    0 <= t < s && heads[t] < sorted[t].len() implies !key_lt(
                                    (#[trigger] sorted[t])[heads[t]].spec_id(),
                                    candidate@,
                                ) by {
                                    let other = sorted[t][heads[t]].spec_id();
                                    if key_lt(other, candidate@) {
                                        lemma_key_lt_transitive(other, candidate@, least@);
                                    }
                                }
                                at = s as int;
                            }
                            best = Some(candidate);
                        }
                    },
                }
            }
            s += 1;
        }
        let curr: &'a str = match best {
            None => {
                proof {
                    lemma_all_read(source, sorted, heads, last);
                }
                return None;
            },
            Some(least) => least,
        };
        proof {
            lemma_least_head(source, sorted, heads, last, curr@, at);
        }
        let mut item: Vec<Vec<&'a T>> = Vec::new();
        let mut new_heads: Vec<usize> = Vec::new();
        let ghost mut advanced: int = 0;
        let mut s: usize = 0;
        while s < n
            invariant
                s <= n,
                n == self.sorted@.len(),
                n == self.heads@.len(),
                n == source.len(),
                sorted == self.sorted@.map_values(|run: Vec<&'a T>| values(run@)),
                heads == self.heads@.map_values(|h: usize| h as int),
                forall|t: int|
                    0 <= t < n ==> slot_ok(source[t], #[trigger] sorted[t], heads[t], last),
                forall|t: int|
                    0 <= t < n && heads[t] < sorted[t].len() ==> !key_lt(
                        (#[trigger] sorted[t])[heads[t]].spec_id(),
                        curr@,
                    ),
                above(last, curr@),
                item@.len() == s,
                new_heads@.len() == s,
                forall|t: int|
                    0 <= t < s ==> slot_ok(
                        source[t],
                        #[trigger] sorted[t],
                        new_heads@[t] as int,
                        Some(curr@),
                    ),
                forall|t: int|
                    0 <= t < s ==> values(#[trigger] item@[t]@) == with_id(source[t], curr@),
                forall|t: int| 0 <= t < s ==> heads[t] <= #[trigger] new_heads@[t],
                forall|t: int|
                    0 <= t < s && heads[t] < sorted[t].len() && sorted[t][heads[t]].spec_id()
                        == curr@ ==> heads[t] < #[trigger] new_heads@[t],
                forall|t: int| 0 <= t < s ==> #[trigger] new_heads@[t] - heads[t] <= advanced,
                unread(self.sorted@.subrange(0, s as int), new_heads@) + advanced == unread(
                    self.sorted@.subrange(0, s as int),
                    self.heads@.subrange(0, s as int),
                ),
            decreases n - s,
        {
            let run = &self.sorted[s];
            let head = self.heads[s];
            assert(slot_ok(source[s as int], sorted[s as int], heads[s as int], last));
            let mut bucket: Vec<&'a T> = Vec::new();
            let mut h: usize = head;
            loop
                invariant_except_break
                    head <= h <= run@.len(),
                    values(bucket@) == values(run@).subrange(head as int, h as int),
                    forall|k: int|
                        head <= k < h ==> (#[trigger] values(run@)[k]).spec_id() == curr@,
                ensures
                    head <= h <= run@.len(),
                    values(bucket@) == values(run@).subrange(head as int, h as int),
                    forall|k: int|
                        head <= k < h ==> (#[trigger] values(run@)[k]).spec_id() == curr@,
                    h < run@.len() ==> values(run@)[h as int].spec_id() != curr@,
                decreases run@.len() - h,
            {
                if h >= run.len() {
                    break ;
                }
                let record: &'a T = run[h];
                if !same_id(record.id(), curr) {
                    break ;
                }
                let ghost before = bucket@;
                bucket.push(record);
                h += 1;
                assert(values(bucket@) =~= values(before).push(*record));
            }
            proof {
                lemma_advance(source[s as int], sorted[s as int], head as int, h as int, last, curr@);
                let ghost runs_before = self.sorted@.subrange(0, s as int);
                let ghost runs_after = self.sorted@.subrange(0, s + 1);
                assert(runs_after.drop_last() =~= runs_before);
                assert(new_heads@.push(h).drop_last() =~= new_heads@);
                assert(self.heads@.subrange(0, s + 1).drop_last() =~= self.heads@.subrange(
                    0,
                    s as int,
                ));
                advanced = advanced + (h - head);
            }
            item.push(bucket);
            new_heads.push(h);
            s += 1;
        }
        proof {
            assert(self.sorted@.subrange(0, n as int) =~= self.sorted@);
            assert(self.heads@.subrange(0, n as int) =~= self.heads@);
        }
        self.heads = new_heads;
        self.curr = Some(curr);
        Some((curr, item))
    }
}

/// The number of records behind the heads: per run, those from the run's
/// head on.
pub open spec fn unread<T>(sorted: Seq<Vec<&T>>, heads: Seq<usize>) -> nat
    decreases sorted.len(),
{
    if sorted.len() == 0 || heads.len() != sorted.len() {
        0
    } else {
        let rest = unread(sorted.drop_last(), heads.drop_last());
        let len = sorted.last()@.len();
        if heads.last() <= len {
            rest + (len - heads.last()) as nat
        } else {
            rest
        }
    }
}

} // verus!
