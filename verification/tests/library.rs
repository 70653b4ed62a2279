use loadgen::{QuerySample, QuerySamples, Samples, Test};
use std::sync::Arc;

#[test]
fn a_new_library_counts_its_samples_and_holds_none() {
    let library: Samples<_, Vec<usize>> = Samples::new(100, |i: usize| vec![i; 8]);
    assert_eq!(library.total_samples(), 100);
    assert_eq!(library.performance_samples(), 100);
    assert_eq!(library.name(), "samples");
    assert!(library.get(0).is_none());
}

#[test]
fn loading_creates_the_data_of_each_index() {
    let mut library = Samples::new(10, |i: usize| vec![i; 3]);
    library.load_samples(&[1, 4]);
    assert_eq!(*library.get(1).unwrap(), vec![1, 1, 1]);
    assert_eq!(*library.get(4).unwrap(), vec![4, 4, 4]);
    assert!(library.get(2).is_none());
}

#[test]
fn loading_again_creates_the_data_anew() {
    let mut calls = 0usize;
    let mut library = Samples::new(10, move |i: usize| {
        calls += 1;
        (i, calls)
    });
    library.load_samples(&[3, 5, 3]);
    assert_eq!(*library.get(3).unwrap(), (3, 3));
    assert_eq!(*library.get(5).unwrap(), (5, 2));
}

#[test]
fn an_index_beyond_the_total_can_still_be_loaded() {
    let mut library = Samples::new(2, |i: usize| i * 10);
    library.load_samples(&[7]);
    assert_eq!(*library.get(7).unwrap(), 70);
}

#[test]
fn unloading_removes_only_the_given_indices() {
    let mut library = Samples::new(10, |i: usize| i + 100);
    library.load_samples(&[0, 1, 2]);
    library.unload_samples(&[1, 9]);
    assert_eq!(*library.get(0).unwrap(), 100);
    assert!(library.get(1).is_none());
    assert_eq!(*library.get(2).unwrap(), 102);
    assert!(library.get(9).is_none());
}

#[test]
fn unloading_what_was_loaded_restores_the_library() {
    let mut library = Samples::new(10, |i: usize| i);
    library.load_samples(&[0]);
    library.load_samples(&[4, 5]);
    library.unload_samples(&[4, 5]);
    assert_eq!(*library.get(0).unwrap(), 0);
    assert!(library.get(4).is_none());
    assert!(library.get(5).is_none());
}

#[test]
fn the_data_handed_out_is_the_loaded_data_itself() {
    let mut library = Samples::new(4, |i: usize| vec![i; 2]);
    library.load_samples(&[2]);
    let first = library.get(2).unwrap();
    let second = library.get(2).unwrap();
    assert!(Arc::ptr_eq(&first, &second));
    library.unload_samples(&[2]);
    assert_eq!(*first, vec![2, 2]);
}

#[test]
fn a_query_runs_with_the_loaded_data_in_issue_order() {
    let mut library = Samples::new(100, |i: usize| vec![i; 8]);
    library.load_samples(&[3, 8]);
    let mut seen: Vec<(usize, Vec<usize>)> = Vec::new();
    let mut answered: Vec<usize> = Vec::new();
    {
        let mut test = Test::new(
            |q: loadgen::Query<Vec<usize>>| {
                let data = (**q.sample()).clone();
                let response = q.complete(&[]);
                answered.push(response.id);
                seen.push((data[0], data));
            },
            |_latencies: &[i64]| {},
        );
        assert_eq!(test.name(), "my_sut");
        let batch = QuerySamples::new(vec![
            QuerySample::new(11, 8),
            QuerySample::new(12, 3),
            QuerySample::new(13, 8),
        ]);
        test.issue_query(&library, batch);
    }
    assert_eq!(answered, vec![11, 12, 13]);
    assert_eq!(seen, vec![(8, vec![8; 8]), (3, vec![3; 8]), (8, vec![8; 8])]);
}

#[test]
fn a_caller_finds_an_unloaded_sample_before_issuing() {
    let mut library = Samples::new(10, |i: usize| i);
    library.load_samples(&[1, 2]);
    library.unload_samples(&[2]);
    let wanted = [1usize, 2, 1];
    let missing: Vec<usize> = wanted.iter().copied().filter(|&ix| library.get(ix).is_none()).collect();
    assert_eq!(missing, vec![2]);
    let mut ran: Vec<usize> = Vec::new();
    {
        let mut test = Test::new(|q: loadgen::Query<usize>| ran.push(**q.sample()), |_l: &[i64]| {});
        let batch = QuerySamples::new(vec![QuerySample::new(1, 1), QuerySample::new(3, 1)]);
        test.issue_query(&library, batch);
    }
    assert_eq!(ran, vec![1, 1]);
}

#[test]
fn loads_and_unloads_keep_the_sample_counts() {
    let mut library = Samples::new(7, |i: usize| i);
    library.load_samples(&[0, 1, 2]);
    library.unload_samples(&[1]);
    library.load_samples(&[6, 6]);
    library.unload_samples(&[0, 2, 6, 9]);
    assert_eq!(library.total_samples(), 7);
    assert_eq!(library.performance_samples(), 7);
}

#[test]
fn an_empty_query_runs_nothing() {
    let library: Samples<_, usize> = Samples::new(1, |i: usize| i);
    let mut count = 0usize;
    {
        let mut test = Test::new(|_q: loadgen::Query<usize>| count += 1, |_l: &[i64]| {});
        test.issue_query(&library, QuerySamples::new(Vec::new()));
    }
    assert_eq!(count, 0);
}

#[test]
fn latencies_are_handed_to_the_report() {
    let mut reported: Vec<i64> = Vec::new();
    {
        let mut test =
            Test::new(|_q: loadgen::Query<u8>| {}, |latencies: &[i64]| reported.extend_from_slice(latencies));
        test.report_latency_results(&[5, 7, 11]);
        test.report_latency_results(&[]);
    }
    assert_eq!(reported, vec![5, 7, 11]);
}

#[test]
fn queries_carry_the_loaded_data_of_their_samples_in_order() {
    let mut library = Samples::new(10, |i: usize| i * 3);
    library.load_samples(&[2, 5]);
    let handed = library.queries_for(QuerySamples::new(vec![
        QuerySample::new(40, 5),
        QuerySample::new(41, 2),
        QuerySample::new(42, 5),
    ]));
    assert_eq!(handed.len(), 3);
    assert_eq!(**handed[0].sample(), 15);
    assert_eq!(**handed[1].sample(), 6);
    assert_eq!(**handed[2].sample(), 15);
    let ids: Vec<usize> = handed.into_iter().map(|q| q.complete(&[]).id).collect();
    assert_eq!(ids, vec![40, 41, 42]);
}

#[test]
fn a_query_splits_at_its_first_unloaded_sample() {
    let mut library = Samples::new(10, |i: usize| i);
    library.load_samples(&[1, 3]);
    let mut batch = QuerySamples::new(vec![
        QuerySample::new(1, 1),
        QuerySample::new(2, 3),
        QuerySample::new(3, 4),
        QuerySample::new(4, 1),
        QuerySample::new(5, 9),
    ]);
    let (mut loaded, missing) = library.split_at_missing(&mut batch);
    assert_eq!(loaded.len(), 2);
    assert_eq!(loaded.next().unwrap().index(), 1);
    assert_eq!(loaded.next().unwrap().index(), 3);
    let missing = missing.unwrap();
    assert_eq!(missing.index(), 4);
    assert_eq!(missing.complete(&[]).id, 3);
    assert_eq!(batch.len(), 2);
    assert_eq!(batch.next().unwrap().index(), 1);
    assert_eq!(batch.next().unwrap().index(), 9);
}

#[test]
fn a_fully_loaded_query_is_taken_whole() {
    let mut library = Samples::new(10, |i: usize| i);
    library.load_samples(&[0, 1]);
    let mut batch = QuerySamples::new(vec![QuerySample::new(7, 0), QuerySample::new(8, 1)]);
    let (loaded, missing) = library.split_at_missing(&mut batch);
    assert!(missing.is_none());
    assert_eq!(loaded.len(), 2);
    assert_eq!(batch.len(), 0);
}
