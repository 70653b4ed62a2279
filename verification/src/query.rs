use std::sync::Arc;
use vstd::prelude::*;

verus! {

/// One sample of a query issued by the load generator: the response id that the answer must
/// carry, and the index of the sample in the query sample library.
#[derive(Debug)]
pub struct QuerySample {
    id: usize,
    index: usize,
}

/// The answer to one query sample: the id of the sample answered and the bytes of the result.
/// A sample given up with `abandon` is answered with no bytes.
#[derive(Debug, PartialEq, Eq)]
pub struct Response<'a> {
    pub id: usize,
    pub data: &'a [u8],
}

impl QuerySample {
    /// The response id of this sample.
    pub closed spec fn ident(&self) -> usize {
        self.id
    }

    /// The library index of this sample.
    pub closed spec fn sample_index(&self) -> usize {
        self.index
    }

    /// A sample with the given response id and library index.
    pub fn new(id: usize, index: usize) -> (sample: QuerySample)
        ensures
            sample.ident() == id,
            sample.sample_index() == index,
    {
        QuerySample { id, index }
    }

    /// The index of this sample in the query sample library.
    pub fn index(&self) -> (index: usize)
        ensures
            index == self.sample_index(),
    {
        self.index
    }

    /// Completes this sample with the given result data.
    pub fn complete(self, data: &[u8]) -> (response: Response<'_>)
        ensures
            response.id == self.ident(),
            response.data@ == data@,
    {
        Response { id: self.id, data }
    }

    /// Answers this sample without data: the answer for a sample that is given up without
    /// being completed. Dropping a sample does not answer it; call this instead.
    pub fn abandon(self) -> (response: Response<'static>)
        ensures
            response.id == self.ident(),
            response.data@.len() == 0,
    {
        Response { id: self.id, data: &[] }
    }
}

/// The samples of one issued query, handed out one at a time in the order in which the load
/// generator issued them.
#[derive(Debug)]
pub struct QuerySamples {
    pending: Vec<QuerySample>,
}

impl View for QuerySamples {
    type V = Seq<QuerySample>;

    /// The samples not handed out yet, in order.
    closed spec fn view(&self) -> Seq<QuerySample> {
        self.pending@
    }
}

impl QuerySamples {
    /// The batch of the given samples, in the given order.
    pub fn new(samples: Vec<QuerySample>) -> (batch: QuerySamples)
        ensures
            batch@ == samples@,
    {
        QuerySamples { pending: samples }
    }

    /// The number of samples not handed out yet.
    pub fn len(&self) -> (n: usize)
        ensures
            n == self@.len(),
    {
        self.pending.len()
    }

    /// Hands out the next sample, or `None` once every sample has been handed out.
    pub fn next(&mut self) -> (sample: Option<QuerySample>)
        ensures
            old(self)@.len() == 0 ==> sample is None && final(self)@ == old(self)@,
            old(self)@.len() > 0 ==> sample == Some(old(self)@[0]) && final(self)@
                == old(self)@.drop_first(),
    {
        if self.pending.len() == 0 {
            None
        } else {
            Some(self.pending.remove(0))
        }
    }

    /// Answers, in order and without data, every sample not handed out yet. Dropping a batch
    /// does not answer its samples; call this instead.
    pub fn abandon(self) -> (responses: Vec<Response<'static>>)
        ensures
            responses@.len() == self@.len(),
            forall|i: int|
                0 <= i < responses@.len() ==> responses@[i].id == #[trigger] self@[i].ident()
                    && responses@[i].data@.len() == 0,
    {
        let mut rest = self.pending;
        let ghost all = rest@;
        let mut responses: Vec<Response<'static>> = Vec::new();
        while rest.len() > 0
            invariant
                responses@.len() + rest@.len() == all.len(),
                rest@ == all.skip(responses@.len() as int),
                forall|i: int|
                    0 <= i < responses@.len() ==> responses@[i].id == #[trigger] all[i].ident()
                        && responses@[i].data@.len() == 0,
            decreases rest@.len(),
        {
            let sample = rest.remove(0);
            assert(sample == all[responses@.len() as int]);
            responses.push(sample.abandon());
            assert(rest@ =~= all.skip(responses@.len() as int));
        }
        responses
    }
}

/// A query sample together with the loaded data of its library index. The query must be
/// completed with the result once the data has been processed.
pub struct Query<T> {
    sample: Arc<T>,
    query: QuerySample,
}

impl<T> Query<T> {
    /// The loaded data that this query carries.
    pub closed spec fn data(&self) -> Arc<T> {
        self.sample
    }

    /// The sample of the issued query that this query answers.
    pub closed spec fn request(&self) -> QuerySample {
        self.query
    }

    /// The query that answers `query` with the loaded data `sample`.
    pub fn new(sample: Arc<T>, query: QuerySample) -> (q: Query<T>)
        ensures
            q.data() == sample,
            q.request() == query,
    {
        Query { sample, query }
    }

    /// The loaded data of this query.
    pub fn sample(&self) -> (sample: &Arc<T>)
        ensures
            *sample == self.data(),
    {
        &self.sample
    }

    /// Completes this query with the given result data.
    pub fn complete(self, result: &[u8]) -> (response: Response<'_>)
        ensures
            response.id == self.request().ident(),
            response.data@ == result@,
    {
        self.query.complete(result)
    }
}

impl<T> std::ops::Deref for Query<T> {
    type Target = T;

    /// The loaded data of this query.
    fn deref(&self) -> (data: &T)
        ensures
            *data == *self.data(),
    {
        &self.sample
    }
}

impl<T> std::borrow::Borrow<T> for Query<T> {
    /// The loaded data of this query.
    fn borrow(&self) -> &T
        returns
            &*self.data(),
    {
        &self.sample
    }
}

} // verus!
