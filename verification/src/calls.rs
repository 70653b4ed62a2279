use vstd::prelude::*;

use crate::query::Query;

verus! {

/// A closure that creates sample data, with the record of every call made of it: the index it
/// was called with and the data it returned, in call order. The closure is reached only through
/// `call`, so the record holds each call that was made, and no other.
pub(crate) struct Creator<F, T> {
    make: F,
    made: Ghost<Seq<(usize, T)>>,
}

impl<F, T> Creator<F, T> {
    /// The closure.
    pub(crate) closed spec fn closure(&self) -> F {
        self.make
    }

    /// Every call made of the closure so far, in order: its index and what it returned.
    pub(crate) closed spec fn log(&self) -> Seq<(usize, T)> {
        self.made@
    }

    /// The closure `make`, not called yet.
    pub(crate) fn new(make: F) -> (creator: Creator<F, T>)
        ensures
            creator.closure() == make,
            creator.log() == Seq::<(usize, T)>::empty(),
    {
        Creator { make, made: Ghost(Seq::empty()) }
    }
}

impl<F: FnMut(usize) -> T, T> Creator<F, T> {
    /// Calls the closure with `index` once, and records the call.
    pub(crate) fn call(&mut self, index: usize) -> (data: T)
        requires
            call_requires(old(self).closure(), (index,)),
        ensures
            final(self).closure() == old(self).closure(),
            final(self).log() == old(self).log().push((index, data)),
            call_ensures(old(self).closure(), (index,), data),
    {
        let data = (self.make)(index);
        proof {
            self.made@ = self.made@.push((index, data));
        }
        data
    }
}

/// A closure that runs queries, with the record of every query it was called with, in call
/// order. The closure is reached only through `call`.
pub(crate) struct Runner<F, T> {
    run: F,
    ran: Ghost<Seq<Query<T>>>,
}

impl<F, T> Runner<F, T> {
    /// The closure.
    pub(crate) closed spec fn closure(&self) -> F {
        self.run
    }

    /// Every query the closure was called with so far, in order.
    pub(crate) closed spec fn log(&self) -> Seq<Query<T>> {
        self.ran@
    }

    /// The closure `run`, not called yet.
    pub(crate) fn new(run: F) -> (runner: Runner<F, T>)
        ensures
            runner.closure() == run,
            runner.log() == Seq::<Query<T>>::empty(),
    {
        Runner { run, ran: Ghost(Seq::empty()) }
    }
}

impl<F: FnMut(Query<T>), T> Runner<F, T> {
    /// Calls the closure with `query` once, and records the call.
    pub(crate) fn call(&mut self, query: Query<T>)
        requires
            call_requires(old(self).closure(), (query,)),
        ensures
            final(self).closure() == old(self).closure(),
            final(self).log() == old(self).log().push(query),
            call_ensures(old(self).closure(), (query,), ()),
    {
        let ghost given = query;
        (self.run)(query);
        proof {
            self.ran@ = self.ran@.push(given);
        }
    }
}

/// A closure that receives latencies, with the record of every slice it was called with, in
/// call order. The closure is reached only through `call`.
pub(crate) struct Reporter<F> {
    report: F,
    reported: Ghost<Seq<Seq<i64>>>,
}

impl<F> Reporter<F> {
    /// The closure.
    pub(crate) closed spec fn closure(&self) -> F {
        self.report
    }

    /// Every slice of latencies the closure was called with so far, in order.
    pub(crate) closed spec fn log(&self) -> Seq<Seq<i64>> {
        self.reported@
    }

    /// The closure `report`, not called yet.
    pub(crate) fn new(report: F) -> (reporter: Reporter<F>)
        ensures
            reporter.closure() == report,
            reporter.log() == Seq::<Seq<i64>>::empty(),
    {
        Reporter { report, reported: Ghost(Seq::empty()) }
    }
}

impl<F: FnMut(&[i64])> Reporter<F> {
    /// Calls the closure with `latencies` once, and records the call.
    pub(crate) fn call(&mut self, latencies: &[i64])
        requires
            call_requires(old(self).closure(), (latencies,)),
        ensures
            final(self).closure() == old(self).closure(),
            final(self).log() == old(self).log().push(latencies@),
            call_ensures(old(self).closure(), (latencies,), ()),
    {
        (self.report)(latencies);
        proof {
            self.reported@ = self.reported@.push(latencies@);
        }
    }
}

} // verus!
