use barcode_match::lookup::{release_ids, search_all, Aggregation, LookupError, LookupOutcome};

fn ids(v: &[&str]) -> Vec<String> {
    v.iter().map(|s| s.to_string()).collect()
}

fn network(msg: &str) -> LookupOutcome {
    Err(LookupError::Network(msg.to_string()))
}

#[test]
fn merge_dedups_in_first_seen_order() {
    let r = search_all(vec![Ok(ids(&["x", "y"])), Ok(ids(&["y", "z"]))]).unwrap();
    assert_eq!(r, ids(&["x", "y", "z"]));
}

#[test]
fn merge_other_completion_order() {
    let r = search_all(vec![Ok(ids(&["y", "z"])), Ok(ids(&["x", "y"]))]).unwrap();
    assert_eq!(r, ids(&["y", "z", "x"]));
    let mut sorted = r.clone();
    sorted.sort();
    assert_eq!(sorted, ids(&["x", "y", "z"]));
}

#[test]
fn merge_dedups_within_one_lookup() {
    let r = search_all(vec![Ok(ids(&["a", "a", "b", "a"]))]).unwrap();
    assert_eq!(r, ids(&["a", "b"]));
}

#[test]
fn empty_lookups_give_empty_success() {
    let r = search_all(vec![Ok(vec![]), Ok(vec![]), Ok(vec![])]);
    assert!(matches!(r, Ok(ref v) if v.is_empty()));
}

#[test]
fn no_candidates_give_empty_success() {
    let r = search_all(vec![]);
    assert!(matches!(r, Ok(ref v) if v.is_empty()));
}

#[test]
fn one_failed_lookup_fails_search() {
    let r = search_all(vec![Ok(ids(&["x"])), network("timed out"), Ok(ids(&["z"]))]);
    assert!(matches!(r, Err(LookupError::Network(ref m)) if m == "timed out"));
}

#[test]
fn first_failure_is_reported() {
    let r = search_all(vec![
        Ok(vec![]),
        Err(LookupError::MalformedResponse("releases".to_string())),
        network("refused"),
    ]);
    assert!(matches!(r, Err(LookupError::MalformedResponse(ref m)) if m == "releases"));
}

#[test]
fn aggregation_steps() {
    let mut agg = Aggregation::new();
    assert!(agg.record(Ok(ids(&["x", "y"]))).is_ok());
    assert!(agg.record(Ok(ids(&["y", "z", "x"]))).is_ok());
    assert_eq!(agg.finish(), ids(&["x", "y", "z"]));
}

#[test]
fn aggregation_stops_on_failure() {
    let mut agg = Aggregation::new();
    assert!(agg.record(Ok(ids(&["x"]))).is_ok());
    let r = agg.record(network("reset"));
    assert!(matches!(r, Err(LookupError::Network(ref m)) if m == "reset"));
}

#[test]
fn release_ids_reads_identifiers() {
    let r = release_ids(&Some(vec![Some("a".to_string()), Some("b".to_string())])).unwrap();
    assert_eq!(r, ids(&["a", "b"]));
    let r = release_ids(&Some(vec![])).unwrap();
    assert!(r.is_empty());
}

#[test]
fn release_ids_missing_list_is_malformed() {
    assert!(matches!(release_ids(&None), Err(LookupError::MalformedResponse(_))));
}

#[test]
fn release_ids_missing_identifier_is_malformed() {
    let r = release_ids(&Some(vec![Some("a".to_string()), None]));
    assert!(matches!(r, Err(LookupError::MalformedResponse(_))));
}
