use qumulus::cluster::add_replica;

#[test]
fn replicas_are_added_once_and_never_self() {
    let own = "127.0.0.1:1000".to_string();
    let mut replicas: Vec<String> = vec![];
    assert!(add_replica(&own, &mut replicas, "127.0.0.1:1001".to_string()));
    assert!(!add_replica(&own, &mut replicas, "127.0.0.1:1000".to_string()));
    assert!(add_replica(&own, &mut replicas, "127.0.0.1:1002".to_string()));
    assert!(!add_replica(&own, &mut replicas, "127.0.0.1:1001".to_string()));
    assert_eq!(replicas, vec!["127.0.0.1:1001".to_string(), "127.0.0.1:1002".to_string()]);
}
