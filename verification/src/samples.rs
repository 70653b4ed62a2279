use std::collections::BTreeMap;
use std::sync::Arc;
use vstd::prelude::*;

use crate::calls::Creator;
use crate::query::{Query, QuerySample, QuerySamples};

verus! {

/// Calls `Arc::clone`, which makes another pointer to the same allocation: the new pointer
/// points to the same data as `shared`. Nothing else is stated of it.
#[verifier::external_body]
fn share<T>(shared: &Arc<T>) -> (copy: Arc<T>)
    ensures
        copy == *shared,
{
    Arc::clone(shared)
}

/// A query sample library that creates the data of each sample with a closure when the load
/// generator asks for the sample to be loaded. Creating the data is not timed; once loaded,
/// the data can be used by the test on request until it is unloaded.
pub struct Samples<Create, T> {
    total_samples: usize,
    performance_samples: usize,
    create: Creator<Create, T>,
    samples: BTreeMap<usize, Arc<T>>,
}

/// The loaded samples after `indices` were loaded, in order, into `before` by `create`: each
/// of them maps to data that `create` made for it, and every other index is unchanged.
pub open spec fn loaded_into<Create: FnMut(usize) -> T, T>(
    before: Map<usize, Arc<T>>,
    indices: Seq<usize>,
    create: Create,
    after: Map<usize, Arc<T>>,
) -> bool {
    &&& after.dom() == before.dom() + indices.to_set()
    &&& forall|k: usize| #[trigger]
        after.contains_key(k) && !indices.contains(k) ==> after[k] == before[k]
    &&& forall|k: usize| #[trigger]
        indices.contains(k) ==> call_ensures(create, (k,), *after[k])
}

/// The loaded samples after `indices` were unloaded from `before`.
pub open spec fn unloaded_from<T>(before: Map<usize, Arc<T>>, indices: Seq<usize>) -> Map<
    usize,
    Arc<T>,
> {
    before.remove_keys(indices.to_set())
}

/// Unloading the samples that were just loaded leaves the library as it was before the load
/// on every other index: unloading undoes loading.
pub proof fn lemma_unload_undoes_load<Create: FnMut(usize) -> T, T>(
    before: Map<usize, Arc<T>>,
    indices: Seq<usize>,
    create: Create,
    after: Map<usize, Arc<T>>,
)
    requires
        loaded_into(before, indices, create, after),
    ensures
        unloaded_from(after, indices) == unloaded_from(before, indices),
{
    assert(unloaded_from(after, indices) =~= unloaded_from(before, indices));
}

/// After a load, each loaded index holds data that the creating closure made for it, and an
/// index that was not loaded is loaded afterwards exactly when it was before.
pub proof fn lemma_load_makes_available<Create: FnMut(usize) -> T, T>(
    before: Map<usize, Arc<T>>,
    indices: Seq<usize>,
    create: Create,
    after: Map<usize, Arc<T>>,
    index: usize,
)
    requires
        loaded_into(before, indices, create, after),
    ensures
        indices.contains(index) ==> after.contains_key(index) && call_ensures(
            create,
            (index,),
            *after[index],
        ),
        !indices.contains(index) ==> (after.contains_key(index) <==> before.contains_key(index)),
{
    if indices.contains(index) {
        assert(indices.to_set().contains(index));
    }
}

/// After an unload, no unloaded index is loaded, and every other index keeps its data.
pub proof fn lemma_unload_removes<T>(before: Map<usize, Arc<T>>, indices: Seq<usize>, index: usize)
    ensures
        indices.contains(index) ==> !unloaded_from(before, indices).contains_key(index),
        !indices.contains(index) ==> (unloaded_from(before, indices).contains_key(index)
            <==> before.contains_key(index)),
        !indices.contains(index) && before.contains_key(index) ==> unloaded_from(
            before,
            indices,
        )[index] == before[index],
{
}

/// The first `i + 1` elements of `s` hold exactly the first `i` and `s[i]`.
proof fn lemma_prefix_grows(s: Seq<usize>, i: int)
    requires
        0 <= i < s.len(),
    ensures
        forall|a: usize| #[trigger]
            s.take(i + 1).contains(a) <==> s.take(i).contains(a) || a == s[i],
        s.take(i + 1).to_set() == s.take(i).to_set().insert(s[i]),
{
    let prefix = s.take(i);
    let longer = s.take(i + 1);
    assert(longer =~= prefix.push(s[i]));
    assert forall|a: usize| longer.contains(a) <==> prefix.contains(a) || a == s[i] by {
        if longer.contains(a) {
            let j = choose|j: int| 0 <= j < longer.len() && longer[j] == a;
            if j < i {
                assert(prefix[j] == a);
            }
        }
        if prefix.contains(a) {
            let j = choose|j: int| 0 <= j < prefix.len() && prefix[j] == a;
            assert(longer[j] == a);
        }
        if a == s[i] {
            assert(longer[i] == a);
        }
    }
    assert(longer.to_set() =~= prefix.to_set().insert(s[i]));
}

/// `after` is `before` once `indices` were loaded into it: what `loaded_into` says of the
/// loaded samples, with the closure and both sample counts kept.
pub open spec fn is_load_of<Create: FnMut(usize) -> T, T>(
    before: Samples<Create, T>,
    indices: Seq<usize>,
    after: Samples<Create, T>,
) -> bool {
    &&& loaded_into(before.loaded(), indices, before.creator(), after.loaded())
    &&& after.creator() == before.creator()
    &&& after.total() == before.total()
    &&& after.performance() == before.performance()
    &&& made_in_order(before.creations(), indices, before.creator(), after.creations())
    &&& forall|k: int|
        0 <= k < indices.len() && last_of(indices, k) ==> *after.loaded()[indices[k]]
            == #[trigger] after.creations()[before.creations().len() + k].1
}

/// The creating closure was called once for each of `indices`, in their order, after the calls
/// in `before`: `after` holds the calls of `before`, then one call per index, the `k`-th with
/// `indices[k]`, each returning what `create` can return for it.
pub open spec fn made_in_order<Create: FnMut(usize) -> T, T>(
    before: Seq<(usize, T)>,
    indices: Seq<usize>,
    create: Create,
    after: Seq<(usize, T)>,
) -> bool {
    &&& after.len() == before.len() + indices.len()
    &&& after.take(before.len() as int) == before
    &&& forall|k: int|
        0 <= k < indices.len() ==> (#[trigger] after[before.len() + k]).0 == indices[k]
            && call_ensures(create, (indices[k],), after[before.len() + k].1)
}

/// No index after position `k` of `indices` is `indices[k]`: position `k` is its last.
pub open spec fn last_of(indices: Seq<usize>, k: int) -> bool {
    forall|j: int| k < j < indices.len() ==> indices[j] != indices[k]
}

/// `after` is `before` once `indices` were unloaded from it, with the closure and both sample
/// counts kept.
pub open spec fn is_unload_of<Create, T>(
    before: Samples<Create, T>,
    indices: Seq<usize>,
    after: Samples<Create, T>,
) -> bool {
    &&& after.loaded() == unloaded_from(before.loaded(), indices)
    &&& after.creator() == before.creator()
    &&& after.creations() == before.creations()
    &&& after.total() == before.total()
    &&& after.performance() == before.performance()
}

/// `after` follows from `before` by one load or one unload of some indices.
pub open spec fn loads_or_unloads_to<Create: FnMut(usize) -> T, T>(
    before: Samples<Create, T>,
    after: Samples<Create, T>,
) -> bool {
    exists|indices: Seq<usize>|
        is_load_of(before, indices, after) || is_unload_of(before, indices, after)
}

/// An index that occurs in `s` has a last occurrence.
proof fn lemma_last_occurrence(s: Seq<usize>, ix: usize)
    requires
        s.contains(ix),
    ensures
        exists|k: int| 0 <= k < s.len() && s[k] == ix && #[trigger] last_of(s, k),
    decreases s.len(),
{
    let n = s.len() - 1;
    if s[n] == ix {
        assert(last_of(s, n));
    } else {
        let rest = s.drop_last();
        let j = choose|j: int| 0 <= j < s.len() && s[j] == ix;
        assert(rest[j] == ix);
        lemma_last_occurrence(rest, ix);
        let k = choose|k: int| 0 <= k < rest.len() && rest[k] == ix && #[trigger] last_of(rest, k);
        assert forall|m: int| k < m < s.len() implies s[m] != s[k] by {
            if m < n {
                assert(rest[m] == s[m]);
            }
        }
        assert(last_of(s, k));
    }
}

/// Loading calls the creating closure once per listed index, in the listed order, and
/// nothing more: the indices of the calls made during the load are exactly `indices`, each
/// call returns what the closure can return for its index, and the data left loaded for a
/// listed index is what the last call with that index returned.
pub proof fn lemma_load_calls_in_listed_order<Create: FnMut(usize) -> T, T>(
    before: Samples<Create, T>,
    indices: Seq<usize>,
    after: Samples<Create, T>,
)
    requires
        is_load_of(before, indices, after),
    ensures
        after.creations().take(before.creations().len() as int) == before.creations(),
        after.creations().skip(before.creations().len() as int).map_values(
            |call: (usize, T)| call.0,
        ) == indices,
        forall|k: int|
            0 <= k < indices.len() ==> call_ensures(
                before.creator(),
                (indices[k],),
                #[trigger] after.creations()[before.creations().len() + k].1,
            ),
        forall|ix: usize|
            #[trigger] indices.contains(ix) ==> exists|k: int|
                0 <= k < indices.len() && indices[k] == ix && last_of(indices, k)
                    && *after.loaded()[ix] == after.creations()[before.creations().len() + k].1,
{
    let base = before.creations().len();
    let made = after.creations().skip(base as int);
    assert(made.map_values(|call: (usize, T)| call.0) =~= indices) by {
        assert forall|k: int| 0 <= k < indices.len() implies made.map_values(
            |call: (usize, T)| call.0,
        )[k] == indices[k] by {
            assert(made[k] == after.creations()[base + k]);
        }
    }
    assert forall|k: int| 0 <= k < indices.len() implies call_ensures(
        before.creator(),
        (indices[k],),
        #[trigger] after.creations()[base + k].1,
    ) by {
        assert(after.creations()[base + k].0 == indices[k]);
    }
    assert forall|ix: usize| #[trigger] indices.contains(ix) implies exists|k: int|
        0 <= k < indices.len() && indices[k] == ix && last_of(indices, k) && *after.loaded()[ix]
            == after.creations()[base + k].1 by {
        lemma_last_occurrence(indices, ix);
        let k = choose|k: int| 0 <= k < indices.len() && indices[k] == ix && #[trigger] last_of(indices, k);
        assert(*after.loaded()[indices[k]] == after.creations()[base + k].1);
    }
}

/// However a library is loaded and unloaded after it is made with `n` samples, it keeps
/// `n` as its total and as its performance sample count.
pub proof fn lemma_counts_stay<Create: FnMut(usize) -> T, T>(
    history: Seq<Samples<Create, T>>,
    n: usize,
)
    requires
        history.len() > 0,
        history[0].total() == n,
        history[0].performance() == n,
        forall|i: int|
            0 <= i < history.len() - 1 ==> #[trigger] loads_or_unloads_to(
                history[i],
                history[i + 1],
            ),
    ensures
        forall|i: int|
            0 <= i < history.len() ==> #[trigger] history[i].total() == n
                && history[i].performance() == n,
    decreases history.len(),
{
    if history.len() > 1 {
        let earlier = history.drop_last();
        assert forall|i: int| 0 <= i < earlier.len() - 1 implies #[trigger] loads_or_unloads_to(
            earlier[i],
            earlier[i + 1],
        ) by {
            assert(loads_or_unloads_to(history[i], history[i + 1]));
        }
        lemma_counts_stay(earlier, n);
        let last = history.len() - 1;
        let k = last - 1;
        assert(loads_or_unloads_to(history[k], history[k + 1]));
        assert(earlier[k] == history[k]);
        assert(earlier[k].total() == n);
        assert forall|i: int| 0 <= i < history.len() implies #[trigger] history[i].total() == n
            && history[i].performance() == n by {
            if i < last {
                assert(earlier[i] == history[i]);
            }
        }
    }
}

impl<Create, T> Samples<Create, T> {
    /// The data loaded for each loaded sample index.
    pub closed spec fn loaded(&self) -> Map<usize, Arc<T>> {
        self.samples@
    }

    /// The closure that creates the data of a sample.
    pub closed spec fn creator(&self) -> Create {
        self.create.closure()
    }

    /// Every call made of the creating closure so far, in call order: the index it was called
    /// with and the data it returned.
    pub closed spec fn creations(&self) -> Seq<(usize, T)> {
        self.create.log()
    }

    /// The number of samples the library holds in all.
    pub closed spec fn total(&self) -> usize {
        self.total_samples
    }

    /// The number of samples to load in performance mode.
    pub closed spec fn performance(&self) -> usize {
        self.performance_samples
    }

    /// A library of `num_samples` samples, all of them used in performance mode, with nothing
    /// loaded yet.
    pub fn new(num_samples: usize, create: Create) -> (library: Samples<Create, T>)
        ensures
            library.total() == num_samples,
            library.performance() == num_samples,
            library.creator() == create,
            library.loaded() == Map::<usize, Arc<T>>::empty(),
            library.creations() == Seq::<(usize, T)>::empty(),
    {
        Samples {
            total_samples: num_samples,
            performance_samples: num_samples,
            create: Creator::new(create),
            samples: BTreeMap::new(),
        }
    }

    /// The name of the library.
    pub fn name(&self) -> (name: &'static str)
        ensures
            name@ == "samples"@,
    {
        proof {
            reveal_strlit("samples");
        }
        "samples"
    }

    /// The total number of samples that can be loaded.
    pub fn total_samples(&self) -> (n: usize)
        ensures
            n == self.total(),
    {
        self.total_samples
    }

    /// The number of samples to load in performance mode.
    pub fn performance_samples(&self) -> (n: usize)
        ensures
            n == self.performance(),
    {
        self.performance_samples
    }

    /// The data loaded for sample `index`, if it is loaded.
    pub fn get(&self, index: usize) -> (data: Option<Arc<T>>)
        ensures
            data matches Some(d) ==> self.loaded().contains_key(index) && d == self.loaded()[index],
            data is None ==> !self.loaded().contains_key(index),
    {
        match self.samples.get(&index) {
            Some(shared) => Some(share(shared)),
            None => None,
        }
    }

    /// The queries that answer the samples of `queries`, in order, each carrying the data
    /// loaded for its sample's index. Every sample's index must be loaded.
    pub fn queries_for(&self, queries: QuerySamples) -> (handed: Vec<Query<T>>)
        requires
            forall|i: int|
                0 <= i < queries@.len() ==> self.loaded().contains_key(
                    #[trigger] queries@[i].sample_index(),
                ),
        ensures
            handed@.len() == queries@.len(),
            forall|i: int|
                0 <= i < handed@.len() ==> #[trigger] handed@[i].request() == queries@[i]
                    && handed@[i].data() == self.loaded()[queries@[i].sample_index()],
    {
        let mut pending = queries;
        let ghost all = pending@;
        let mut handed: Vec<Query<T>> = Vec::new();
        while pending.len() > 0
            invariant
                all == queries@,
                handed@.len() <= all.len(),
                pending@ == all.skip(handed@.len() as int),
                forall|i: int|
                    0 <= i < all.len() ==> self.loaded().contains_key(
                        #[trigger] all[i].sample_index(),
                    ),
                forall|i: int|
                    0 <= i < handed@.len() ==> #[trigger] handed@[i].request() == all[i]
                        && handed@[i].data() == self.loaded()[all[i].sample_index()],
            decreases pending@.len(),
        {
            let ghost done = handed@.len() as int;
            match pending.next() {
                Some(sample) => {
                    assert(sample == all[done]);
                    assert(self.loaded().contains_key(all[done].sample_index()));
                    match self.get(sample.index()) {
                        Some(data) => {
                            handed.push(Query::new(data, sample));
                        },
                        None => {
                            assert(false);
                        },
                    }
                    assert(pending@ =~= all.skip(handed@.len() as int));
                },
                None => {
                    assert(false);
                },
            }
        }
        handed
    }

    /// Takes from `queries` the samples before the first one whose data is not loaded, and
    /// that one. What stays in `queries` is what came after it; where every sample is loaded,
    /// all of them are taken and nothing stays.
    pub fn split_at_missing(&self, queries: &mut QuerySamples) -> (split: (
        QuerySamples,
        Option<QuerySample>,
    ))
        ensures
            forall|i: int|
                0 <= i < split.0@.len() ==> self.loaded().contains_key(
                    #[trigger] split.0@[i].sample_index(),
                ),
            split.1 is None ==> split.0@ == old(queries)@ && final(queries)@.len() == 0,
            split.1 matches Some(missing) ==> !self.loaded().contains_key(missing.sample_index())
                && old(queries)@ == split.0@ + seq![missing] + final(queries)@,
    {
        let ghost all = queries@;
        let mut loaded: Vec<QuerySample> = Vec::new();
        while queries.len() > 0
            invariant
                all == old(queries)@,
                loaded@.len() <= all.len(),
                queries@ == all.skip(loaded@.len() as int),
                loaded@ == all.take(loaded@.len() as int),
                forall|i: int|
                    0 <= i < loaded@.len() ==> self.loaded().contains_key(
                        #[trigger] loaded@[i].sample_index(),
                    ),
            decreases queries@.len(),
        {
            let ghost done = loaded@.len() as int;
            match queries.next() {
                Some(sample) => {
                    assert(sample == all[done]);
                    if self.get(sample.index()).is_some() {
                        loaded.push(sample);
                        assert(loaded@ =~= all.take(loaded@.len() as int));
                        assert(queries@ =~= all.skip(loaded@.len() as int));
                    } else {
                        assert(all =~= all.take(done) + seq![sample] + all.skip(done + 1));
                        assert(queries@ =~= all.skip(done + 1));
                        return (QuerySamples::new(loaded), Some(sample));
                    }
                },
                None => {
                    assert(false);
                },
            }
        }
        assert(loaded@ =~= all);
        (QuerySamples::new(loaded), None)
    }

    /// Unloads the given samples; an index that is not loaded is left alone.
    pub fn unload_samples(&mut self, samples: &[usize])
        ensures
            is_unload_of(*old(self), samples@, *final(self)),
    {
        let n = samples.len();
        let mut i: usize = 0;
        while i < n
            invariant
                n == samples@.len(),
                i <= n,
                self.loaded() == old(self).loaded().remove_keys(samples@.take(i as int).to_set()),
                self.creator() == old(self).creator(),
                self.creations() == old(self).creations(),
                self.total() == old(self).total(),
                self.performance() == old(self).performance(),
            decreases n - i,
        {
            let ix = samples[i];
            self.samples.remove(&ix);
            proof {
                lemma_prefix_grows(samples@, i as int);
            }
            assert(self.samples@ =~= old(self).loaded().remove_keys(
                samples@.take(i + 1).to_set(),
            ));
            i = i + 1;
        }
        assert(samples@.take(n as int) =~= samples@);
    }
}

impl<Create: FnMut(usize) -> T, T> Samples<Create, T> {
    /// The creating closure may be called with any sample index.
    pub open spec fn accepts_every_index(&self) -> bool {
        forall|i: usize| call_requires(self.creator(), (i,))
    }

    /// Creates the data of sample `ix` and stores it, replacing what was loaded for `ix`.
    fn load(&mut self, ix: usize)
        requires
            old(self).accepts_every_index(),
        ensures
            final(self).loaded() == old(self).loaded().insert(ix, final(self).loaded()[ix]),
            call_ensures(old(self).creator(), (ix,), *final(self).loaded()[ix]),
            final(self).creations() == old(self).creations().push((ix, *final(self).loaded()[ix])),
            final(self).creator() == old(self).creator(),
            final(self).total() == old(self).total(),
            final(self).performance() == old(self).performance(),
    {
        assert(call_requires(self.creator(), (ix,)));
        let data = self.create.call(ix);
        self.samples.insert(ix, Arc::new(data));
    }

    /// Loads the given samples, in order: the data of each is created anew and replaces what
    /// was loaded for it. Other loaded samples are kept.
    pub fn load_samples(&mut self, samples: &[usize])
        requires
            old(self).accepts_every_index(),
        ensures
            is_load_of(*old(self), samples@, *final(self)),
    {
        let n = samples.len();
        let mut i: usize = 0;
        assert(self.loaded().dom() + samples@.take(0).to_set() =~= self.loaded().dom());
        assert(self.creations().take(self.creations().len() as int) =~= self.creations());
        while i < n
            invariant
                n == samples@.len(),
                i <= n,
                loaded_into(
                    old(self).loaded(),
                    samples@.take(i as int),
                    old(self).creator(),
                    self.loaded(),
                ),
                self.creator() == old(self).creator(),
                self.total() == old(self).total(),
                self.performance() == old(self).performance(),
                self.accepts_every_index(),
                made_in_order(
                    old(self).creations(),
                    samples@.take(i as int),
                    old(self).creator(),
                    self.creations(),
                ),
                forall|k: int|
                    0 <= k < i && last_of(samples@.take(i as int), k) ==> *self.loaded()[samples@[k]]
                        == #[trigger] self.creations()[old(self).creations().len() + k].1,
            decreases n - i,
        {
            let ix = samples[i];
            let ghost before = *self;
            self.load(ix);
            proof {
                let base = old(self).creations().len();
                let prefix = samples@.take(i as int);
                let longer = samples@.take(i + 1);
                lemma_prefix_grows(samples@, i as int);
                assert(self.loaded().dom() =~= old(self).loaded().dom() + longer.to_set());
                assert(self.creations().take(base as int) =~= old(self).creations()) by {
                    assert(before.creations().take(base as int) =~= old(self).creations());
                }
                assert forall|k: int| 0 <= k < longer.len() implies (#[trigger] self.creations()[base
                    + k]).0 == longer[k] && call_ensures(
                    old(self).creator(),
                    (longer[k],),
                    self.creations()[base + k].1,
                ) by {
                    if k < i {
                        assert(self.creations()[base + k] == before.creations()[base + k]);
                        assert(prefix[k] == longer[k]);
                    }
                }
                assert forall|k: int|
                    0 <= k < i + 1 && last_of(longer, k) implies *self.loaded()[samples@[k]]
                    == #[trigger] self.creations()[base + k].1 by {
                    if k < i {
                        assert(longer[i as int] == ix);
                        assert(samples@[k] != ix);
                        assert(last_of(prefix, k)) by {
                            assert forall|j: int| k < j < prefix.len() implies prefix[j] != prefix[k] by {
                                assert(longer[j] == prefix[j]);
                            }
                        }
                        assert(self.creations()[base + k] == before.creations()[base + k]);
                    }
                }
            }
            i = i + 1;
        }
        assert(samples@.take(n as int) =~= samples@);
        assert(samples@.take(n as int) =~= samples@);
    }
}

} // verus!
