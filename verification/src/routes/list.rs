use crate::models::dag::{Dag, DagStatus};
use crate::services::clock::{is_before, is_earlier, Timestamp};
use vstd::prelude::*;
use vstd::std_specs::convert::FromSpecImpl;

verus! {

/// A run in brief.
#[derive(Debug, Clone)]
pub struct DagSummary {
    pub id: String,
    pub name: Option<String>,
    pub status: DagStatus,
    pub task_count: usize,
    pub created_at: Timestamp,
    pub finished_at: Option<Timestamp>,
}

/// The answer to a listing: the number of runs and their summaries, newest first.
#[derive(Debug, Clone)]
pub struct ListDagResponse {
    pub total: usize,
    pub dags: Vec<DagSummary>,
}

impl From<Dag> for DagSummary {
    fn from(value: Dag) -> (r: Self)
        ensures
            r.id == value.id,
            r.name == value.name,
            r.status == value.status,
            r.task_count == value.tasks@.len(),
            r.created_at == value.created_at,
            r.finished_at == value.finished_at,
    {
        let task_count = value.tasks.len();
        DagSummary {
            id: value.id,
            name: value.name,
            status: value.status,
            task_count,
            created_at: value.created_at,
            finished_at: value.finished_at,
        }
    }
}

impl FromSpecImpl<Dag> for DagSummary {
    open spec fn obeys_from_spec() -> bool {
        true
    }

    open spec fn from_spec(v: Dag) -> DagSummary {
        summary_of(v)
    }
}

/// The summary of a run.
pub open spec fn summary_of(v: Dag) -> DagSummary {
    DagSummary {
        id: v.id,
        name: v.name,
        status: v.status,
        task_count: v.tasks@.len() as usize,
        created_at: v.created_at,
        finished_at: v.finished_at,
    }
}

/// A run's summary carries the run's id, name, status, number of tasks, creation time
/// and finishing time unchanged.
pub proof fn lemma_summary_keeps_run_fields(v: Dag)
    requires
        v.tasks@.len() <= usize::MAX,
    ensures
        summary_of(v).id == v.id,
        summary_of(v).name == v.name,
        summary_of(v).status == v.status,
        summary_of(v).task_count == v.tasks@.len(),
        summary_of(v).created_at == v.created_at,
        summary_of(v).finished_at == v.finished_at,
{
}

/// Holds for the summaries created at `c`.
pub open spec fn created_at_is(c: Timestamp) -> spec_fn(DagSummary) -> bool {
    |s: DagSummary| s.created_at == c
}

/// Newer runs come first.
pub open spec fn newest_first(s: Seq<DagSummary>) -> bool {
    forall|i: int, j: int| #![trigger s[i], s[j]] 0 <= i < j < s.len() ==> !is_before(s[i].created_at, s[j].created_at)
}

/// Newer runs come first, read on the creation times' fields: a later summary was
/// created in the same second or an earlier one, and within the same second with no
/// more nanoseconds.
pub open spec fn newest_first_by_fields(s: Seq<DagSummary>) -> bool {
    forall|i: int, j: int|
        #![trigger s[i], s[j]]
        0 <= i < j < s.len() ==> s[j].created_at.secs <= s[i].created_at.secs && (s[j].created_at.secs
            == s[i].created_at.secs ==> s[j].created_at.nanos <= s[i].created_at.nanos)
}

/// Summaries newest first are newest first by seconds, then by nanoseconds.
pub proof fn lemma_newest_first_by_fields(s: Seq<DagSummary>)
    requires
        newest_first(s),
    ensures
        newest_first_by_fields(s),
{
    assert forall|i: int, j: int|
        #![trigger s[i], s[j]]
        0 <= i < j < s.len() implies s[j].created_at.secs <= s[i].created_at.secs && (s[j].created_at.secs
            == s[i].created_at.secs ==> s[j].created_at.nanos <= s[i].created_at.nanos) by {
        assert(!is_before(s[i].created_at, s[j].created_at));
        crate::services::clock::lemma_before_by_seconds_first(s[i].created_at, s[j].created_at);
    }
}

/// `r` holds the summaries of `v`, and those created at the same time in the same order.
pub open spec fn same_by_creation_time(r: Seq<DagSummary>, v: Seq<DagSummary>) -> bool {
    forall|c: Timestamp| #[trigger] r.filter(created_at_is(c)) == v.filter(created_at_is(c))
}

/// Sorts summaries newest first; summaries created at the same time keep their order.
pub fn sort_newest_first(v: Vec<DagSummary>) -> (r: Vec<DagSummary>)
    ensures
        r@.len() == v@.len(),
        newest_first(r@),
        newest_first_by_fields(r@),
        same_by_creation_time(r@, v@),
{
    let ghost orig = v@;
    let mut rest = v;
    let mut out: Vec<DagSummary> = Vec::new();
    let n = rest.len();
    let mut k: usize = 0;
    proof {
        assert(orig.take(0) =~= out@);
    }
    while k < n
        invariant
            k <= n,
            n == orig.len(),
            rest@ == orig.skip(k as int),
            out@.len() == k,
            newest_first(out@),
            same_by_creation_time(out@, orig.take(k as int)),
        decreases n - k,
    {
        let x = rest.remove(0);
        assert(x == orig[k as int]);
        assert(rest@ =~= orig.skip(k + 1));
        let mut p: usize = 0;
        while p < out.len() && !is_earlier(out[p].created_at, x.created_at)
            invariant
                p <= out@.len(),
                forall|q: int| 0 <= q < p ==> !is_before((#[trigger] out@[q]).created_at, x.created_at),
            decreases out@.len() - p,
        {
            p += 1;
        }
        let ghost before = out@;
        out.insert(p, x);
        proof {
            let after = out@;
            before.insert_ensures(p as int, x);
            assert forall|i: int, j: int| #![trigger after[i], after[j]] 0 <= i < j < after.len() implies !is_before(
                after[i].created_at,
                after[j].created_at,
            ) by {
                if j < p {
                    assert(after[i] == before[i] && after[j] == before[j]);
                } else if j == p {
                    assert(after[i] == before[i]);
                } else if i > p {
                    assert(after[i] == before[i - 1] && after[j] == before[j - 1]);
                } else if i == p {
                    assert(after[j] == before[j - 1]);
                    assert(is_before(before[p as int].created_at, x.created_at));
                    if j - 1 > p {
                        assert(!is_before(before[p as int].created_at, before[j - 1].created_at));
                    }
                } else {
                    assert(after[i] == before[i] && after[j] == before[j - 1]);
                }
            }
            let head = before.subrange(0, p as int);
            let tail = before.subrange(p as int, before.len() as int);
            assert(before =~= head + tail);
            assert(after =~= head.push(x) + tail);
            let taken = orig.take(k as int);
            assert(orig.take(k + 1) =~= taken.push(x));
            assert forall|c: Timestamp| #[trigger] after.filter(created_at_is(c)) == orig.take(k + 1).filter(
                created_at_is(c),
            ) by {
                let f = created_at_is(c);
                Seq::filter_distributes_over_add(head, tail, f);
                Seq::filter_distributes_over_add(head.push(x), tail, f);
                head.lemma_filter_push(x, f);
                taken.lemma_filter_push(x, f);
                assert(before.filter(f) == taken.filter(f));
                if c == x.created_at {
                    assert(tail.filter(f) =~= Seq::<DagSummary>::empty()) by {
                        if tail.filter(f).len() > 0 {
                            tail.lemma_filter_pred(f, 0);
                            tail.lemma_filter_contains_rev(f, tail.filter(f)[0]);
                            let q = choose|q: int| 0 <= q < tail.len() && tail[q] == tail.filter(f)[0];
                            assert(before[p + q] == tail[q]);
                            assert(is_before(before[p as int].created_at, x.created_at));
                            if q > 0 {
                                assert(!is_before(before[p as int].created_at, before[p + q].created_at));
                            }
                        }
                    }
                }
            }
        }
        k += 1;
    }
    assert(orig.take(n as int) =~= orig);
    proof {
        lemma_newest_first_by_fields(out@);
    }
    out
}

impl ListDagResponse {
    /// The listing of the given runs: their summaries, newest first.
    pub fn from_dags(dags: Vec<Dag>) -> (r: Self)
        ensures
            r.total == dags@.len(),
            r.dags@.len() == dags@.len(),
            newest_first(r.dags@),
            newest_first_by_fields(r.dags@),
            same_by_creation_time(
                r.dags@,
                dags@.map_values(|d: Dag| summary_of(d)),
            ),
    {
        let ghost orig = dags@;
        let mut rest = dags;
        let mut summaries: Vec<DagSummary> = Vec::new();
        let n = rest.len();
        let mut k: usize = 0;
        while k < n
            invariant
                k <= n,
                n == orig.len(),
                rest@ == orig.skip(k as int),
                summaries@ == orig.take(k as int).map_values(|d: Dag| summary_of(d)),
            decreases n - k,
        {
            let d = rest.remove(0);
            assert(d == orig[k as int]);
            assert(rest@ =~= orig.skip(k + 1));
            summaries.push(DagSummary::from(d));
            assert(orig.take(k + 1).map_values(|d: Dag| summary_of(d)) =~= orig.take(
                k as int,
            ).map_values(|d: Dag| summary_of(d)).push(summary_of(orig[k as int])));
            k += 1;
        }
        assert(orig.take(n as int) =~= orig);
        let sorted = sort_newest_first(summaries);
        ListDagResponse { total: sorted.len(), dags: sorted }
    }
}

} // verus!
