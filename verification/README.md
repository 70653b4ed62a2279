# loadgen

Query handling for the MLPerf load generator, verified with Verus.

- `src/query.rs`: query samples, the responses that answer them, batches of samples, and
  queries that carry a sample's loaded data.
- `src/samples.rs`: a query sample library that creates sample data with a closure on load and
  drops it on unload, makes the queries for a batch of samples from its loaded data, splits a
  batch at its first unloaded sample, and the laws that relate loading and unloading.
- `src/harness.rs`: a system under test that runs each issued sample with the library's loaded
  data, and the laws that relate loading to serving queries.
- `app/`: the program around the library: the load generator's C entry points, the test and
  log settings, and the callbacks that drive a test.
