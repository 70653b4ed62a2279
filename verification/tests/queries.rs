use loadgen::{Query, QuerySample, QuerySamples, Response};
use std::sync::Arc;

#[test]
fn completing_a_sample_answers_its_id_with_the_data() {
    let sample = QuerySample::new(17, 4);
    assert_eq!(sample.index(), 4);
    let data = [1u8, 2, 3];
    let response = sample.complete(&data);
    assert_eq!(response, Response { id: 17, data: &[1, 2, 3] });
}

#[test]
fn abandoning_a_sample_answers_its_id_without_data() {
    let response = QuerySample::new(9, 0).abandon();
    assert_eq!(response.id, 9);
    assert!(response.data.is_empty());
}

#[test]
fn samples_are_handed_out_in_issue_order() {
    let mut batch = QuerySamples::new(vec![
        QuerySample::new(1, 10),
        QuerySample::new(2, 20),
        QuerySample::new(3, 30),
    ]);
    assert_eq!(batch.len(), 3);
    let first = batch.next().unwrap();
    assert_eq!(first.index(), 10);
    assert_eq!(first.complete(&[]).id, 1);
    let second = batch.next().unwrap();
    assert_eq!(second.index(), 20);
    assert_eq!(batch.len(), 1);
    let third = batch.next().unwrap();
    assert_eq!(third.index(), 30);
    assert!(batch.next().is_none());
    assert!(batch.next().is_none());
    assert_eq!(batch.len(), 0);
}

#[test]
fn an_empty_batch_hands_out_nothing() {
    let mut batch = QuerySamples::new(Vec::new());
    assert!(batch.next().is_none());
    assert!(batch.abandon().is_empty());
}

#[test]
fn dropping_a_batch_answers_the_rest_without_data() {
    let mut batch = QuerySamples::new(vec![
        QuerySample::new(5, 0),
        QuerySample::new(6, 1),
        QuerySample::new(7, 2),
    ]);
    let first = batch.next().unwrap();
    assert_eq!(first.index(), 0);
    let responses = batch.abandon();
    assert_eq!(responses.len(), 2);
    assert_eq!(responses[0], Response { id: 6, data: &[] });
    assert_eq!(responses[1], Response { id: 7, data: &[] });
}

#[test]
fn a_query_carries_its_data_and_answers_its_sample() {
    let query = Query::new(Arc::new(vec![4usize; 3]), QuerySample::new(42, 8));
    assert_eq!(**query.sample(), vec![4, 4, 4]);
    assert_eq!(&query[..], &[4, 4, 4]);
    let response = query.complete(&[9, 9]);
    assert_eq!(response.id, 42);
    assert_eq!(response.data, &[9, 9]);
}
