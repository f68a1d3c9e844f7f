use beadgraph::BeadNode;
use beadgraph::critical::critical_path_internal;
use beadgraph::dag::build_adjacency_internal;
use beadgraph::dag::compute_levels_internal;
use beadgraph::dag::find_cycle_nodes_internal;
use beadgraph::dag::get_ready_beads_internal;
use beadgraph::dag::has_cycle_internal;
use beadgraph::hash::fx_hash_str;
use beadgraph::intern::StringInterner;
use beadgraph::intern::intern_batch;
use beadgraph::pool::VecPool;
use beadgraph::pool::MapPool;
use beadgraph::topo::get_execution_order_internal;
use beadgraph::topo::topo_sort_internal;
use beadgraph::topo::topo_sort_kahn;

fn bead(
    id: &str,
    status: &str,
    blocked_by: &[&str],
    blocks: &[&str],
    duration: Option<u32>,
) -> BeadNode {
    BeadNode {
        id: id.to_string(),
        title: id.to_uppercase(),
        status: status.to_string(),
        priority: 0,
        blocked_by: blocked_by.iter().map(|s| s.to_string()).collect(),
        blocks: blocks.iter().map(|s| s.to_string()).collect(),
        duration,
    }
}

fn create_test_beads() -> Vec<BeadNode> {
    vec![
        bead("a", "open", &[], &["b"], Some(10)),
        bead("b", "open", &["a"], &["c"], Some(20)),
        bead("c", "open", &["b"], &[], Some(15)),
    ]
}

fn slack_of(result: &beadgraph::CriticalPathResult, id: &str) -> Option<u32> {
    result.slack_of(&id.to_string())
}

#[test]
fn test_topo_sort() {
    let beads = create_test_beads();
    let result = topo_sort_internal(&beads);
    assert!(!result.has_cycle);
    assert_eq!(result.sorted.len(), 3);
}

#[test]
fn test_no_cycle() {
    let beads = create_test_beads();
    assert!(!has_cycle_internal(&beads));
}

#[test]
fn test_cycle_detection() {
    // a -> b -> c -> a
    let beads = vec![
        bead("a", "open", &["c"], &["b"], None),
        bead("b", "open", &["a"], &["c"], None),
        bead("c", "open", &["b"], &["a"], None),
    ];
    assert!(has_cycle_internal(&beads));
}

#[test]
fn test_ready_beads() {
    let beads = vec![
        bead("a", "closed", &[], &["b"], None),
        bead("b", "open", &["a"], &["c"], None),
        bead("c", "open", &["b"], &[], None),
    ];
    let ready = get_ready_beads_internal(&beads);
    assert_eq!(ready.len(), 1);
    assert_eq!(ready[0], "b");
}

#[test]
fn test_levels() {
    let beads = vec![
        bead("a", "open", &[], &["c"], None),
        bead("b", "open", &[], &["c"], None),
        bead("c", "open", &["a", "b"], &[], None),
    ];
    let levels = compute_levels_internal(&beads).unwrap();
    assert!(levels.levels[0].contains(&"a".to_string()));
    assert!(levels.levels[0].contains(&"b".to_string()));
    assert!(levels.levels[1].contains(&"c".to_string()));
}

#[test]
fn test_topo_sort_linear() {
    let beads = vec![
        bead("a", "open", &[], &["b"], None),
        bead("b", "open", &["a"], &["c"], None),
        bead("c", "open", &["b"], &[], None),
    ];
    let result = topo_sort_internal(&beads);
    assert!(!result.has_cycle);
    assert_eq!(result.sorted.len(), 3);
    let pos = |id: &str| result.sorted.iter().position(|x| x == id);
    assert!(pos("a") < pos("b"));
    assert!(pos("b") < pos("c"));
}

#[test]
fn test_topo_sort_diamond() {
    // a -> b, a -> c, b -> d, c -> d
    let beads = vec![
        bead("a", "open", &[], &["b", "c"], None),
        bead("b", "open", &["a"], &["d"], None),
        bead("c", "open", &["a"], &["d"], None),
        bead("d", "open", &["b", "c"], &[], None),
    ];
    let result = topo_sort_internal(&beads);
    assert!(!result.has_cycle);
    assert_eq!(result.sorted.len(), 4);
    let pos = |id: &str| result.sorted.iter().position(|x| x == id);
    assert_eq!(pos("a"), Some(0));
    assert_eq!(pos("d"), Some(3));
}

#[test]
fn test_execution_waves() {
    let beads = vec![
        bead("a", "open", &[], &["c"], None),
        bead("b", "open", &[], &["c"], None),
        bead("c", "open", &["a", "b"], &[], None),
    ];
    let waves = get_execution_order_internal(&beads).unwrap();
    assert_eq!(waves.len(), 2);
    assert_eq!(waves[0].len(), 2);
    assert!(waves[0].contains(&"a".to_string()));
    assert!(waves[0].contains(&"b".to_string()));
    assert_eq!(waves[1], vec!["c".to_string()]);
}

#[test]
fn test_topo_sort_cycle() {
    let beads = vec![
        bead("a", "open", &["b"], &["b"], None),
        bead("b", "open", &["a"], &["a"], None),
    ];
    let result = topo_sort_kahn(&beads);
    assert!(result.has_cycle);
    assert!(!result.cycle_nodes.is_empty());
}

#[test]
fn test_critical_path_linear() {
    let beads = vec![
        bead("a", "open", &[], &["b"], Some(10)),
        bead("b", "open", &["a"], &["c"], Some(20)),
        bead("c", "open", &["b"], &[], Some(15)),
    ];
    let result = critical_path_internal(&beads).unwrap();
    assert_eq!(result.total_duration, 45);
    assert_eq!(result.path.len(), 3);
    assert_eq!(result.path[0], "a");
    assert_eq!(result.path[1], "b");
    assert_eq!(result.path[2], "c");
    for (_, s) in &result.slack {
        assert_eq!(*s, 0);
    }
}

#[test]
fn test_critical_path_with_slack() {
    // a (10) -> c (5); b (30) -> c (5); critical path b -> c, total 35
    let beads = vec![
        bead("a", "open", &[], &["c"], Some(10)),
        bead("b", "open", &[], &["c"], Some(30)),
        bead("c", "open", &["a", "b"], &[], Some(5)),
    ];
    let result = critical_path_internal(&beads).unwrap();
    assert_eq!(result.total_duration, 35);
    assert_eq!(slack_of(&result, "a"), Some(20));
    assert_eq!(slack_of(&result, "b"), Some(0));
    assert_eq!(slack_of(&result, "c"), Some(0));
}

#[test]
fn test_empty_beads() {
    let beads: Vec<BeadNode> = vec![];
    let result = critical_path_internal(&beads).unwrap();
    assert_eq!(result.total_duration, 0);
    assert!(result.path.is_empty());
    assert!(result.slack.is_empty());
}

#[test]
fn test_single_bead() {
    let beads = vec![bead("only", "open", &[], &[], Some(42))];
    let result = critical_path_internal(&beads).unwrap();
    assert_eq!(result.total_duration, 42);
    assert_eq!(result.path.len(), 1);
    assert_eq!(result.path[0], "only");
    assert_eq!(slack_of(&result, "only"), Some(0));
}

#[test]
fn test_fx_hash() {
    let h1 = fx_hash_str("hello");
    let h2 = fx_hash_str("hello");
    let h3 = fx_hash_str("world");
    assert_eq!(h1, h2);
    assert_ne!(h1, h3);
}

#[test]
fn test_intern_basic() {
    let mut interner = StringInterner::new();
    let s1 = interner.intern("hello");
    let s2 = interner.intern("world");
    let s3 = interner.intern("hello");
    assert_eq!(s1, s3);
    assert_ne!(s1, s2);
}

#[test]
fn test_intern_get() {
    let mut interner = StringInterner::new();
    let symbol = interner.intern("test");
    assert_eq!(interner.get(symbol), Some("test".to_string()));
}

#[test]
fn test_intern_batch() {
    let mut interner = StringInterner::new();
    let strings = ["a", "b", "c", "a", "b"];
    let symbols = intern_batch(&mut interner, &strings);
    assert_eq!(symbols[0], symbols[3]);
    assert_eq!(symbols[1], symbols[4]);
    assert_eq!(interner.len(), 3);
}

#[test]
fn test_vec_pool() {
    let mut pool: VecPool<i32> = VecPool::new(16);
    let mut v1 = pool.get();
    v1.push(1);
    v1.push(2);
    pool.put(v1);
    let v2 = pool.get();
    assert!(v2.is_empty());
    assert!(v2.capacity() >= 16);
}

#[test]
fn test_map_pool() {
    let mut pool: MapPool<String, u32> = MapPool::new(8);
    let mut m1 = pool.get();
    m1.insert("x".to_string(), 7);
    pool.put(m1);
    let m2 = pool.get();
    assert!(m2.is_empty());
}

#[test]
fn test_single_bead_default_duration() {
    // an absent duration counts as 1
    let beads = vec![bead("only", "open", &[], &[], None)];
    let result = critical_path_internal(&beads).unwrap();
    assert_eq!(result.total_duration, 1);
    assert_eq!(result.path, vec!["only".to_string()]);
    assert_eq!(slack_of(&result, "only"), Some(0));
}

#[test]
fn test_empty_input_all_operations() {
    let beads: Vec<BeadNode> = vec![];
    let topo = topo_sort_internal(&beads);
    assert!(!topo.has_cycle);
    assert!(topo.sorted.is_empty());
    assert!(topo.cycle_nodes.is_empty());
    assert!(!has_cycle_internal(&beads));
    assert!(find_cycle_nodes_internal(&beads).is_empty());
    assert!(get_ready_beads_internal(&beads).is_empty());
    assert!(build_adjacency_internal(&beads).is_empty());
    let waves = get_execution_order_internal(&beads).unwrap();
    assert!(waves.is_empty());
    let levels = compute_levels_internal(&beads).unwrap();
    assert!(levels.levels.is_empty());
    assert_eq!(levels.max_parallelism, 0);
}

#[test]
fn test_three_node_cycle_nodes() {
    let beads = vec![
        bead("a", "open", &["c"], &["b"], None),
        bead("b", "open", &["a"], &["c"], None),
        bead("c", "open", &["b"], &["a"], None),
    ];
    assert!(has_cycle_internal(&beads));
    let mut nodes = find_cycle_nodes_internal(&beads);
    nodes.sort();
    assert_eq!(nodes, vec!["a".to_string(), "b".to_string(), "c".to_string()]);
    let topo = topo_sort_internal(&beads);
    assert!(topo.has_cycle);
    assert!(topo.sorted.is_empty());
    assert_eq!(topo.cycle_nodes.len(), 3);
}

#[test]
fn test_critical_path_cycle_error() {
    let beads = vec![
        bead("a", "open", &["b"], &["b"], None),
        bead("b", "open", &["a"], &["a"], None),
    ];
    let err = critical_path_internal(&beads).unwrap_err();
    assert_eq!(err.message(), "Cycle detected in dependency graph");
    assert!(get_execution_order_internal(&beads).is_err());
    assert!(compute_levels_internal(&beads).is_err());
}

#[test]
fn test_self_loop_not_in_cycle_nodes() {
    // a self-loop trips the cycle check but is not an SCC of size > 1
    let beads = vec![
        bead("a", "open", &["a"], &[], None),
        bead("b", "open", &[], &[], None),
    ];
    assert!(has_cycle_internal(&beads));
    assert!(find_cycle_nodes_internal(&beads).is_empty());
}

#[test]
fn test_adjacency_echoes_blocks_only() {
    let beads = vec![
        bead("a", "open", &[], &["b", "ghost"], None),
        bead("b", "open", &["a"], &[], None),
    ];
    let adj = build_adjacency_internal(&beads);
    assert_eq!(adj.len(), 2);
    assert_eq!(adj[0].0, "a");
    assert_eq!(adj[0].1, vec!["b".to_string(), "ghost".to_string()]);
    assert_eq!(adj[1].0, "b");
    assert!(adj[1].1.is_empty());
}

#[test]
fn test_unknown_blocker_keeps_item_blocked() {
    let beads = vec![bead("a", "open", &["ghost"], &[], None)];
    let ready = get_ready_beads_internal(&beads);
    assert!(ready.is_empty());
}

#[test]
fn test_diamond_waves_and_parallelism() {
    let beads = vec![
        bead("a", "open", &[], &["c"], Some(10)),
        bead("b", "open", &[], &["c"], Some(30)),
        bead("c", "open", &["a", "b"], &[], Some(5)),
    ];
    let levels = compute_levels_internal(&beads).unwrap();
    assert_eq!(levels.levels.len(), 2);
    assert_eq!(levels.max_parallelism, 2);
}

#[test]
fn test_interner_clear_and_len() {
    let mut interner = StringInterner::with_capacity(4);
    assert!(interner.is_empty());
    interner.intern("x");
    interner.intern("y");
    assert_eq!(interner.len(), 2);
    let sx = interner.intern("x");
    assert_eq!(interner.get_str(sx), Some("x"));
    interner.clear();
    assert!(interner.is_empty());
}

#[test]
fn test_symbol_index() {
    let mut interner = StringInterner::new();
    let s1 = interner.intern("first");
    let s2 = interner.intern("second");
    assert_eq!(s1.index(), 0);
    assert_eq!(s2.index(), 1);
}
