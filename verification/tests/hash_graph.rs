use kwik::collections::HashGraph;

#[test]
fn graph_inserts_and_replaces() {
    let mut graph = HashGraph::<u64, u64>::default();
    assert!(graph.is_empty());

    assert_eq!(graph.insert(1), None);
    assert_eq!(graph.insert(2), None);
    assert_eq!(graph.insert(3), None);
    assert_eq!(graph.insert(2), Some(2));
    assert_eq!(graph.len(), 3);
}

#[test]
fn graph_connects_entries() {
    let mut graph = HashGraph::<u64, u64>::default();

    graph.insert(1);
    graph.insert(2);
    graph.insert(3);

    graph.connect(&1, &2, 1);

    assert!(graph.is_connected(&1, &2));
    assert!(!graph.is_connected(&2, &1));
    assert!(!graph.is_connected(&1, &3));
    assert!(!graph.is_connected(&1, &4));
}

#[test]
fn graph_ignores_missing_entries_and_reinserts_disconnected() {
    let mut graph = HashGraph::<u64, f64>::new();

    graph.insert(1);
    graph.insert(2);
    graph.connect(&1, &5, 1.0);
    assert!(!graph.is_connected(&1, &5));

    graph.connect(&1, &2, 0.5);
    graph.connect(&2, &1, 0.5);
    graph.connect(&1, &2, 2.0);
    assert!(graph.is_connected(&1, &2));

    graph.insert(2);
    assert!(!graph.is_connected(&1, &2));
    assert!(!graph.is_connected(&2, &1));
}

#[test]
fn graph_finds_shortest_path() {
    let mut graph = HashGraph::<u64, u64>::default();

    graph.insert(1);
    graph.insert(2);
    graph.insert(3);

    graph.connect(&1, &2, 1);
    graph.connect(&2, &3, 1);

    assert_eq!(graph.path(&1, &3), Some(vec![&1, &2, &3]));
}

#[test]
fn graph_prefers_fewer_connections() {
    let mut graph = HashGraph::<u64, u64>::default();

    for v in 1..=5u64 {
        graph.insert(v);
    }

    graph.connect(&1, &2, 1);
    graph.connect(&2, &3, 1);
    graph.connect(&3, &5, 1);
    graph.connect(&1, &4, 1);
    graph.connect(&4, &5, 1);

    assert_eq!(graph.path(&1, &5), Some(vec![&1, &4, &5]));
    assert_eq!(graph.path(&5, &1), None);
    assert_eq!(graph.path(&3, &3), Some(vec![&3]));
    assert_eq!(graph.path(&1, &9), None);
}
