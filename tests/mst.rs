use algo::mst::{Edge, EdgeWeightedGraph, IndexMinPQ};

#[test]
fn test_index_min_pq() {
    let strings = vec!["it", "was", "the", "best", "of", "times", "it", "was", "the", "worst"];
    // the queue orders integer keys: key each string by its rank among the
    // distinct strings, which orders them as the strings themselves
    let mut sorted = strings.clone();
    sorted.sort();
    sorted.dedup();
    let key = |s: &str| sorted.iter().position(|t| *t == s).unwrap() as i64;
    let mut pq = IndexMinPQ::with_capacity(strings.len());

    for (i, s) in strings.iter().enumerate() {
        pq.insert(i, key(s));
    }

    let mut out = vec![];
    while !pq.is_empty() {
        let i = pq.del_min().unwrap();
        assert!(!strings[i].is_empty());
        out.push(strings[i]);
    }
    let mut expect = strings.clone();
    expect.sort();
    assert_eq!(out, expect);

    for (i, s) in strings.iter().enumerate() {
        pq.insert(i, key(s));
    }

    while !pq.is_empty() {
        pq.del_min();
    }
}

#[test]
fn pq_drains_in_key_order() {
    let keys = [5i64, -3, 9, 0, 7, 7, -10, 4];
    let mut pq = IndexMinPQ::with_capacity(10);
    for (i, k) in keys.iter().enumerate() {
        pq.insert(i, *k);
    }
    assert_eq!(pq.size(), 8);
    assert_eq!(pq.min_index(), 6);
    assert_eq!(pq.min_key(), Some(-10));
    pq.decrease_key(2, -20);
    assert_eq!(pq.min_index(), 2);
    pq.increase_key(2, 100);
    pq.change_key(4, -1);
    pq.delete(0);
    assert!(!pq.contains(0));
    assert_eq!(pq.key_of(0), None);
    assert_eq!(pq.key_of(4), Some(-1));
    assert_eq!(pq.key_of(99), None);
    let mut prev = i64::MIN;
    let mut got = vec![];
    while let Some(i) = pq.del_min() {
        let k = if i == 2 { 100 } else if i == 4 { -1 } else { keys[i] };
        assert!(prev <= k);
        prev = k;
        got.push(i);
    }
    assert_eq!(got.len(), 7);
    assert!(pq.is_empty());
    assert_eq!(pq.min_key(), None);
    assert_eq!(pq.del_min(), None);
}

fn sample_graph() -> EdgeWeightedGraph {
    let mut g = EdgeWeightedGraph::new(6);
    g.add_edge(Edge::new(0, 1, 7));
    g.add_edge(Edge::new(1, 2, 10));
    g.add_edge(Edge::new(0, 2, 9));
    g.add_edge(Edge::new(0, 5, 14));
    g.add_edge(Edge::new(1, 3, 15));
    g.add_edge(Edge::new(2, 5, 2));
    g.add_edge(Edge::new(2, 3, 11));
    g.add_edge(Edge::new(4, 5, 9));
    g.add_edge(Edge::new(3, 4, 6));
    g.add_edge(Edge::new(2, 2, 1));
    g
}

#[test]
fn test_edge_weighted_graph() {
    let g = sample_graph();
    assert_eq!(10, g.edges().len());
    assert!(!g.to_dot().is_empty());
}

#[test]
fn test_edge_weighted_graph_mst() {
    let g = sample_graph();
    assert_eq!(33_i64, g.prim_mst().edges().iter().map(|e| e.weight()).sum());
}

#[test]
fn prim_takes_lightest_crossing_edge() {
    let g = sample_graph();
    let mst = g.prim_mst();
    let edges = mst.edges();
    assert_eq!(edges.len(), 5);
    for e in edges.iter() {
        assert!(e.either() != e.other(e.either()));
    }
    // with ties between equal weights, the total stays the same
    let mut h = EdgeWeightedGraph::new(4);
    h.add_edge(Edge::new(0, 1, 1));
    h.add_edge(Edge::new(1, 2, 1));
    h.add_edge(Edge::new(0, 2, 1));
    h.add_edge(Edge::new(2, 3, 5));
    let mut k = EdgeWeightedGraph::new(4);
    k.add_edge(Edge::new(2, 3, 5));
    k.add_edge(Edge::new(0, 2, 1));
    k.add_edge(Edge::new(1, 2, 1));
    k.add_edge(Edge::new(0, 1, 1));
    let wh: i64 = h.prim_mst().edges().iter().map(|e| e.weight()).sum();
    let wk: i64 = k.prim_mst().edges().iter().map(|e| e.weight()).sum();
    assert_eq!(wh, 7);
    assert_eq!(wk, 7);
}

#[test]
fn prim_spans_a_forest() {
    let mut g = EdgeWeightedGraph::new(5);
    g.add_edge(Edge::new(0, 1, 3));
    g.add_edge(Edge::new(0, 1, 2));
    g.add_edge(Edge::new(3, 4, -4));
    g.add_edge(Edge::new(3, 3, -100));
    let edges = g.prim_mst().edges();
    let w: Vec<i64> = edges.iter().map(|e| e.weight()).collect();
    assert_eq!(w, vec![2, -4]);
    assert_eq!(g.e(), 4);
    assert_eq!(g.degree(3), 2);
    assert_eq!(g.adj(1).len(), 2);
    assert_eq!(g.adj(1)[0].either(), 1);
}

#[test]
fn weighted_graph_to_dot() {
    let mut g = EdgeWeightedGraph::new(3);
    g.add_edge(Edge::new(2, 0, -15));
    g.add_edge(Edge::new(1, 1, 7));
    assert_eq!(
        g.to_dot(),
        "graph G {\n  0;\n  1;\n  2;\n  0 -- 2 [ label=\"-15\" ];\n  1 -- 1 [ label=\"7\" ];\n}\n"
    );
    assert_eq!(g.v(), 3);
}

#[test]
fn edge_ends() {
    let e = Edge::new(3, 8, 12);
    assert_eq!(e.either(), 3);
    assert_eq!(e.other(3), 8);
    assert_eq!(e.other(8), 3);
    assert_eq!(e.weight(), 12);
}

use algo::parse::read_weighted_graph_from_string;

#[test]
fn weighted_edge_list_mst_weight() {
    let text = "6 10\n1 2 7\n2 3 10\n1 3 9\n1 6 14\n2 4 15\n3 6 2\n3 4 11\n5 6 9\n4 5 6\n3 3 1\n";
    let g = read_weighted_graph_from_string(text).ok().unwrap();
    assert_eq!(g.v(), 6);
    assert_eq!(g.e(), 10);
    assert_eq!(g.edges().len(), 10);
    assert_eq!(g.prim_mst().total_weight(), 33);
    let neg = read_weighted_graph_from_string("2 1\n1 2 -9223372036854775808").ok().unwrap();
    assert_eq!(neg.prim_mst().total_weight(), i64::MIN as i128);
    assert!(read_weighted_graph_from_string("").is_err());
    assert!(read_weighted_graph_from_string("3 1\n1 4 5").is_err());
    assert!(read_weighted_graph_from_string("3 1\n1 2").is_err());
    assert!(read_weighted_graph_from_string("3 1\n1 2 x").is_err());
    assert!(read_weighted_graph_from_string("3 1\n1 2 9223372036854775808").is_err());
    let empty = read_weighted_graph_from_string("0 0").ok().unwrap();
    assert_eq!(empty.v(), 0);
    assert_eq!(empty.prim_mst().total_weight(), 0);
}

#[test]
fn edges_compare_by_weight() {
    assert!(Edge::new(0, 1, 5) == Edge::new(2, 3, 5));
    assert!(Edge::new(0, 1, 4) < Edge::new(0, 1, 5));
    assert!(Edge::new(3, 1, 9) > Edge::new(0, 1, -9));
    assert!(Edge::new(0, 1, 4) != Edge::new(0, 1, 6));
}
