use std::sync::Arc;
use vstd::prelude::*;

use crate::calls::{Reporter, Runner};
use crate::query::{Query, QuerySample, QuerySamples};
use crate::samples::{Samples, loaded_into, unloaded_from};

verus! {

/// The postcondition of `run` admits being called with a query that carries `data` and
/// answers `request`: what a call of `run` with such a query establishes.
pub open spec fn ran_with<T, Run: FnMut(Query<T>)>(
    run: Run,
    data: Arc<T>,
    request: QuerySample,
) -> bool {
    exists|q: Query<T>|
        #[trigger] call_ensures(run, (q,), ()) && q.data() == data && q.request() == request
}

/// A query whose samples were all loaded is served: every sample's index is found in the
/// library, so the query meets the requirement of `Test::issue_query`, and the data it is run
/// with is what the creating closure made for that index.
pub proof fn lemma_loaded_query_is_served<Create: FnMut(usize) -> T, T>(
    before: Map<usize, Arc<T>>,
    indices: Seq<usize>,
    create: Create,
    after: Map<usize, Arc<T>>,
    queries: Seq<QuerySample>,
)
    requires
        loaded_into(before, indices, create, after),
        forall|i: int| 0 <= i < queries.len() ==> indices.contains(#[trigger] queries[i].sample_index()),
    ensures
        forall|i: int|
            0 <= i < queries.len() ==> after.contains_key(#[trigger] queries[i].sample_index())
                && call_ensures(create, (queries[i].sample_index(),), *after[queries[i].sample_index()]),
{
    assert forall|i: int| 0 <= i < queries.len() implies after.contains_key(
        #[trigger] queries[i].sample_index(),
    ) && call_ensures(create, (queries[i].sample_index(),), *after[queries[i].sample_index()]) by {
        assert(indices.to_set().contains(queries[i].sample_index()));
    }
}

/// A query that asks for a sample which was unloaded cannot be issued: not all of its samples
/// are loaded, so it does not meet the requirement of `Test::issue_query`.
pub proof fn lemma_unloaded_query_is_refused<T>(
    before: Map<usize, Arc<T>>,
    indices: Seq<usize>,
    queries: Seq<QuerySample>,
    k: int,
)
    requires
        0 <= k < queries.len(),
        indices.contains(queries[k].sample_index()),
    ensures
        !(forall|i: int|
            0 <= i < queries.len() ==> unloaded_from(before, indices).contains_key(
                #[trigger] queries[i].sample_index(),
            )),
{
    assert(!unloaded_from(before, indices).contains_key(queries[k].sample_index()));
}

/// Issuing a query runs the closure once per sample, in issue order, and nothing more: the
/// queries run during the issue answer exactly the samples of `queries`, in order, and each
/// carries the data loaded for its sample's index.
pub proof fn lemma_issue_runs_in_issue_order<T>(
    before: Seq<Query<T>>,
    loaded: Map<usize, Arc<T>>,
    queries: Seq<QuerySample>,
    after: Seq<Query<T>>,
)
    requires
        ran_in_order(before, loaded, queries, after),
    ensures
        after.take(before.len() as int) == before,
        after.skip(before.len() as int).map_values(|q: Query<T>| q.request()) == queries,
        after.skip(before.len() as int).map_values(|q: Query<T>| q.data()) == queries.map_values(
            |s: QuerySample| loaded[s.sample_index()],
        ),
{
    let made = after.skip(before.len() as int);
    assert(made.map_values(|q: Query<T>| q.request()) =~= queries) by {
        assert forall|i: int| 0 <= i < queries.len() implies made.map_values(
            |q: Query<T>| q.request(),
        )[i] == queries[i] by {
            assert(made[i] == after[before.len() + i]);
        }
    }
    let data_run = made.map_values(|q: Query<T>| q.data());
    let data_wanted = queries.map_values(|s: QuerySample| loaded[s.sample_index()]);
    assert(data_run =~= data_wanted) by {
        assert forall|i: int| 0 <= i < queries.len() implies #[trigger] data_run[i]
            == data_wanted[i] by {
            assert(made[i] == after[before.len() + i]);
        }
    }
}

/// Issuing two queries in turn on the same loaded samples runs the same queries, in the same
/// order, as issuing their samples as one query.
pub proof fn lemma_issues_compose<T>(
    first_before: Seq<Query<T>>,
    loaded: Map<usize, Arc<T>>,
    first: Seq<QuerySample>,
    between: Seq<Query<T>>,
    second: Seq<QuerySample>,
    after: Seq<Query<T>>,
)
    requires
        ran_in_order(first_before, loaded, first, between),
        ran_in_order(between, loaded, second, after),
    ensures
        ran_in_order(first_before, loaded, first + second, after),
{
    let base = first_before.len();
    assert(after.take(base as int) =~= first_before) by {
        assert forall|i: int| 0 <= i < base implies after[i] == first_before[i] by {
            assert(after.take(between.len() as int)[i] == between[i]);
            assert(between.take(base as int)[i] == first_before[i]);
        }
    }
    let both = first + second;
    assert forall|i: int| 0 <= i < both.len() implies (#[trigger] after[base + i]).request()
        == both[i] && after[base + i].data() == loaded[both[i].sample_index()] by {
        if i < first.len() {
            assert(after.take(between.len() as int)[base + i] == between[base + i]);
            assert(between[base + i].request() == first[i]);
        } else {
            let j = i - first.len();
            assert(after[between.len() + j].request() == second[j]);
        }
    }
}

/// Reporting latencies calls the reporting closure once per report, in order, with the
/// latencies handed: after any run of reports, the closure's calls since the start are
/// exactly the reported slices, in order.
pub proof fn lemma_reports_in_order<T, Run, Report>(
    history: Seq<Test<T, Run, Report>>,
    latencies: Seq<Seq<i64>>,
)
    requires
        history.len() == latencies.len() + 1,
        forall|i: int|
            0 <= i < latencies.len() ==> #[trigger] history[i + 1].reports() == history[i].reports().push(
                latencies[i],
            ),
    ensures
        history.last().reports() == history[0].reports() + latencies,
    decreases latencies.len(),
{
    if latencies.len() > 0 {
        let earlier = history.drop_last();
        let shorter = latencies.drop_last();
        assert forall|i: int| 0 <= i < shorter.len() implies #[trigger] earlier[i + 1].reports()
            == earlier[i].reports().push(shorter[i]) by {
            assert(history[i + 1].reports() == history[i].reports().push(latencies[i]));
        }
        lemma_reports_in_order(earlier, shorter);
        let k = latencies.len() - 1;
        assert(history[k + 1].reports() == history[k].reports().push(latencies[k]));
        assert(history[0].reports() + latencies =~= (history[0].reports() + shorter).push(
            latencies[k],
        ));
    }
}

/// A system under test that runs each issued query with a closure, handing it the sample's
/// loaded data, and reports latencies with another closure.
pub struct Test<T, Run, Report> {
    run: Runner<Run, T>,
    report: Reporter<Report>,
}

/// `run` was called once for each sample of `queries`, in their order, after the calls in
/// `before`: `after` holds the queries of `before`, then one query per sample, the `i`-th
/// answering `queries[i]` and carrying the data `loaded` holds for its index.
pub open spec fn ran_in_order<T>(
    before: Seq<Query<T>>,
    loaded: Map<usize, Arc<T>>,
    queries: Seq<QuerySample>,
    after: Seq<Query<T>>,
) -> bool {
    &&& after.len() == before.len() + queries.len()
    &&& after.take(before.len() as int) == before
    &&& forall|i: int|
        0 <= i < queries.len() ==> (#[trigger] after[before.len() + i]).request() == queries[i]
            && after[before.len() + i].data() == loaded[queries[i].sample_index()]
}

impl<T, Run, Report> Test<T, Run, Report> {
    /// The closure that runs each query.
    pub closed spec fn runner(&self) -> Run {
        self.run.closure()
    }

    /// Every query the running closure was called with so far, in call order.
    pub closed spec fn runs(&self) -> Seq<Query<T>> {
        self.run.log()
    }

    /// Every slice of latencies the reporting closure was called with so far, in call order.
    pub closed spec fn reports(&self) -> Seq<Seq<i64>> {
        self.report.log()
    }

    /// The closure that receives the latencies of the results.
    pub closed spec fn reporter(&self) -> Report {
        self.report.closure()
    }

    /// A system under test that runs queries with `run` and reports latencies to `report`.
    pub fn new(run: Run, report: Report) -> (test: Test<T, Run, Report>)
        ensures
            test.runner() == run,
            test.reporter() == report,
            test.runs() == Seq::<Query<T>>::empty(),
            test.reports() == Seq::<Seq<i64>>::empty(),
    {
        Test { run: Runner::new(run), report: Reporter::new(report) }
    }

    /// The name of the system.
    pub fn name(&self) -> (name: &'static str)
        ensures
            name@ == "my_sut"@,
    {
        proof {
            reveal_strlit("my_sut");
        }
        "my_sut"
    }
}

impl<T, Run: FnMut(Query<T>), Report: FnMut(&[i64])> Test<T, Run, Report> {
    /// The running closure may be called with any query.
    pub open spec fn accepts_every_query(&self) -> bool {
        forall|q: Query<T>| call_requires(self.runner(), (q,))
    }

    /// The reporting closure may be called with any latencies.
    pub open spec fn accepts_every_report(&self) -> bool {
        forall|latencies: &[i64]| call_requires(self.reporter(), (latencies,))
    }

    /// Runs the queries that `library.queries_for` makes of `queries`, in order: each sample
    /// with the data that `library` has loaded for its index. Every sample's index must be
    /// loaded: a caller tests that with `Samples::split_at_missing` or `Samples::get` first.
    pub fn issue_query<Create>(&mut self, library: &Samples<Create, T>, queries: QuerySamples)
        requires
            old(self).accepts_every_query(),
            forall|i: int|
                0 <= i < queries@.len() ==> library.loaded().contains_key(
                    #[trigger] queries@[i].sample_index(),
                ),
        ensures
            final(self).runner() == old(self).runner(),
            final(self).reporter() == old(self).reporter(),
            forall|i: int|
                0 <= i < queries@.len() ==> ran_with(
                    old(self).runner(),
                    library.loaded()[#[trigger] queries@[i].sample_index()],
                    queries@[i],
                ),
            ran_in_order(old(self).runs(), library.loaded(), queries@, final(self).runs()),
            final(self).reports() == old(self).reports(),
    {
        let ghost all = queries@;
        let mut handed = library.queries_for(queries);
        let ghost run = self.runner();
        let ghost mut done: int = 0;
        assert(self.runs().take(self.runs().len() as int) =~= self.runs());
        while handed.len() > 0
            invariant
                0 <= done <= all.len(),
                handed@.len() == all.len() - done,
                self.runner() == run,
                self.report == old(self).report,
                ran_in_order(old(self).runs(), library.loaded(), all.take(done), self.runs()),
                run == old(self).runner(),
                forall|q: Query<T>| call_requires(run, (q,)),
                forall|j: int|
                    0 <= j < handed@.len() ==> #[trigger] handed@[j].request() == all[done + j]
                        && handed@[j].data() == library.loaded()[all[done + j].sample_index()],
                forall|i: int|
                    0 <= i < done ==> ran_with(
                        run,
                        library.loaded()[#[trigger] all[i].sample_index()],
                        all[i],
                    ),
            decreases handed@.len(),
        {
            let ghost before = handed@;
            let q = handed.remove(0);
            assert(q == before[0]);
            assert(before[0].request() == all[done + 0]);
            let ghost given = q;
            let ghost runs_before = self.runs();
            assert(call_requires(run, (given,)));
            self.run.call(q);
            assert(ran_with(run, library.loaded()[all[done].sample_index()], all[done]));
            proof {
                let base = old(self).runs().len();
                let longer = all.take(done + 1);
                assert(self.runs().take(base as int) =~= old(self).runs()) by {
                    assert(runs_before.take(base as int) =~= old(self).runs());
                }
                assert forall|i: int| 0 <= i < longer.len() implies (#[trigger] self.runs()[base
                    + i]).request() == longer[i] && self.runs()[base + i].data()
                    == library.loaded()[longer[i].sample_index()] by {
                    if i < done {
                        assert(self.runs()[base + i] == runs_before[base + i]);
                        assert(all.take(done)[i] == longer[i]);
                    }
                }
            }
            assert forall|j: int| 0 <= j < handed@.len() implies #[trigger] handed@[j].request()
                == all[done + 1 + j] && handed@[j].data() == library.loaded()[all[done + 1
                + j].sample_index()] by {
                assert(handed@[j] == before[j + 1]);
                assert(before[j + 1].request() == all[done + (j + 1)]);
            }
            proof {
                done = done + 1;
            }
        }
    }

    /// Hands the latencies of the results to the reporting closure.
    pub fn report_latency_results(&mut self, latencies: &[i64])
        requires
            old(self).accepts_every_report(),
        ensures
            call_ensures(old(self).reporter(), (latencies,), ()),
            final(self).runner() == old(self).runner(),
            final(self).reporter() == old(self).reporter(),
            final(self).reports() == old(self).reports().push(latencies@),
            final(self).runs() == old(self).runs(),
    {
        assert(call_requires(self.reporter(), (latencies,)));
        self.report.call(latencies);
    }
}

} // verus!
