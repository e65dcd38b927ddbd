use algo::digraph::Digraph;
use algo::parse::{read_graph_from_string, ParseError};

fn top_sizes(s: &str) -> Vec<usize> {
    let g = read_graph_from_string(s).ok().unwrap();
    g.kosaraju_sharir_scc().week4_programming_assignment()
}

// Test cases from Forums.
#[test]
fn test_programming_assigment4() {
    let case0 = "1 2\n2 6\n2 3\n2 4\n3 1\n3 4\n4 5\n5 4\n6 5\n6 7\n7 6\n7 8\n8 5\n8 7";
    let r = top_sizes(case0);
    assert_eq!(r, vec![3, 3, 2]);

    let case1 = "1 4\n2 8\n3 6\n4 7\n5 2\n6 9\n7 1\n8 5\n8 6\n9 7\n9 3";
    let r = top_sizes(case1);
    assert_eq!(r, vec![3, 3, 3]);

    let case2 = "1 2\n2 3\n3 1\n3 4\n5 4\n6 4\n8 6\n6 7\n7 8";
    let g = read_graph_from_string(case2).ok().unwrap();
    let scc = g.kosaraju_sharir_scc();
    let r = scc.week4_programming_assignment();
    assert_eq!(r, vec![3, 3, 1, 1]);

    let case3 = "1 2\n2 3\n3 1\n3 4\n5 4\n6 4\n8 6\n6 7\n7 8\n4 3\n4 6";
    let r = top_sizes(case3);
    assert_eq!(r, vec![7, 1]);

    let case4 = "1 2\n2 3\n2 4\n2 5\n3 6\n4 5\n4 7\n5 2\n5 6\n5 7\n6 3\n6 8\n7 8\n7 10\n8 7\n9 \
                 7\n10 9\n10 11\n11 12\n12 10";
    let r = top_sizes(case4);
    assert_eq!(r, vec![6, 3, 2, 1]);
}

#[test]
fn test_depth_first_order() {
    // digraph from http://algs4.cs.princeton.edu/42digraph/tinyDAG.txt
    let tiny_dag = "2 3\n0 6\n0 1\n2 0\n11 12\n9 12\n9 10\n9 11\n3 5\n8 7\n5 4\n0 5\n6 4\n6 9\n7 6";
    let mut g = Digraph::new(13);
    for line in tiny_dag.lines() {
        let mut it = line.trim().split(' ').map(|s| s.parse::<usize>().unwrap());
        let u = it.next().unwrap();
        let v = it.next().unwrap();
        g.add_edge(u, v);
    }
    let ord: Vec<usize> = g.reverse_postorder();
    println!("Reverse postorder: {:?}", ord);
    assert!(ord == vec![8, 7, 2, 3, 0, 6, 9, 10, 11, 12, 1, 5, 4] ||
            ord == vec![8, 7, 2, 3, 0, 5, 1, 6, 9, 11, 10, 12, 4]);
}

fn edge_counts(g: &Digraph) -> Vec<Vec<usize>> {
    let n = g.v();
    let mut m = vec![vec![0usize; n]; n];
    for u in 0..n {
        for &w in g.adj(u) {
            m[u][w] += 1;
        }
    }
    m
}

#[test]
fn reverse_twice_keeps_edges() {
    let g = read_graph_from_string("1 2\n2 3\n3 1\n3 4\n5 4\n6 4\n8 6\n6 7\n7 8\n1 2\n4 4").ok().unwrap();
    let r = g.reverse();
    assert_eq!(r.v(), g.v());
    assert_eq!(r.e(), g.e());
    assert_eq!(r.adj(1), &[0, 0]);
    assert_eq!(r.adj(3), &[2, 3, 4, 5]);
    let rr = r.reverse();
    assert_eq!(edge_counts(&rr), edge_counts(&g));
}

#[test]
fn connected_is_an_equivalence() {
    let g = read_graph_from_string("1 2\n2 3\n3 1\n3 4\n5 4\n6 4\n8 6\n6 7\n7 8").ok().unwrap();
    let scc = g.kosaraju_sharir_scc();
    assert_eq!(scc.count(), 4);
    for v in 0..g.v() {
        assert!(scc.connected(v, v));
        for w in 0..g.v() {
            assert_eq!(scc.connected(v, w), scc.connected(w, v));
            for x in 0..g.v() {
                if scc.connected(v, w) && scc.connected(w, x) {
                    assert!(scc.connected(v, x));
                }
            }
        }
    }
    assert!(scc.connected(0, 2));
    assert!(scc.connected(5, 7));
    assert!(!scc.connected(0, 3));
    assert!(!scc.connected(3, 4));
    assert!(scc.id(3) < scc.count());
}

#[test]
fn component_sizes_ignore_edge_order() {
    let lines = ["1 2", "2 6", "2 3", "2 4", "3 1", "3 4", "4 5", "5 4", "6 5", "6 7", "7 6", "7 8", "8 5", "8 7"];
    let forward = lines.join("\n");
    let mut rev: Vec<&str> = lines.to_vec();
    rev.reverse();
    let backward = rev.join("\n");
    let mut rotated: Vec<&str> = lines[5..].to_vec();
    rotated.extend_from_slice(&lines[..5]);
    let rotated = rotated.join("\n");
    assert_eq!(top_sizes(&forward), vec![3, 3, 2]);
    assert_eq!(top_sizes(&backward), vec![3, 3, 2]);
    assert_eq!(top_sizes(&rotated), vec![3, 3, 2]);
}

#[test]
fn empty_graph_has_no_components() {
    let g = Digraph::new(0);
    let scc = g.kosaraju_sharir_scc();
    assert_eq!(scc.count(), 0);
    assert_eq!(scc.week4_programming_assignment(), Vec::<usize>::new());
    assert_eq!(g.reverse_postorder(), Vec::<usize>::new());
}

#[test]
fn top_sizes_keep_five_largest() {
    // seven isolated vertices and one 3-cycle
    let g = read_graph_from_string("1 2\n2 3\n3 1\n10 10").ok().unwrap();
    assert_eq!(g.v(), 10);
    let r = g.kosaraju_sharir_scc().week4_programming_assignment();
    assert_eq!(r, vec![3, 1, 1, 1, 1]);
}

#[test]
fn search_paths() {
    let g = read_graph_from_string("1 2\n2 3\n3 4\n1 5\n5 4\n6 1").ok().unwrap();
    let d = g.dfs(0);
    assert!(d.has_path_to(3));
    assert!(!d.has_path_to(5));
    let p = d.path_to(3).unwrap();
    assert_eq!(p[0], 0);
    assert_eq!(*p.last().unwrap(), 3);
    for w in p.windows(2) {
        assert!(g.adj(w[0]).contains(&w[1]));
    }
    assert_eq!(d.path_to(5), None);
    assert_eq!(d.path_to(0), Some(vec![0]));

    let b = g.bfs(0);
    assert_eq!(b.path_to(3), Some(vec![0, 4, 3]));
    assert_eq!(b.path_to(2), Some(vec![0, 1, 2]));
    assert!(!b.has_path_to(5));

    let m = g.dfs_multi_source(vec![5, 2]);
    assert!(m.has_path_to(0));
    assert!(m.has_path_to(3));
    assert_eq!(m.path_to(2), Some(vec![2]));
    let q = m.path_to(4).unwrap();
    assert_eq!(q[0], 5);
    assert_eq!(*q.last().unwrap(), 4);
}

#[test]
fn graph_store_basics() {
    let mut g = Digraph::new(2);
    g.add_edge(0, 1);
    g.add_edge(1, 1);
    g.add_edge(1, 1);
    g.add_edge(0, 0);
    assert_eq!(g.e(), 4);
    assert_eq!(g.outdegree(1), 2);
    assert_eq!(g.number_of_self_loops(), 1);
    g.resize(4);
    assert_eq!(g.v(), 4);
    assert_eq!(g.outdegree(3), 0);
    assert_eq!(g.e(), 4);
    assert_eq!(g.adj(0), &[1, 0]);
    assert_eq!(
        g.to_dot(),
        "digraph G {\n  0;\n  1;\n  2;\n  3;\n  0 -> 1;\n  0 -> 0;\n  1 -> 1;\n  1 -> 1;\n}\n"
    );
    let mut big = Digraph::new(13);
    big.add_edge(12, 10);
    assert!(big.to_dot().contains("  12 -> 10;\n"));
}

#[test]
fn parse_edge_lists() {
    let g = read_graph_from_string("").ok().unwrap();
    assert_eq!(g.v(), 1);
    assert_eq!(g.e(), 0);
    let g = read_graph_from_string("3 1\r\n1  2\t\n").ok().unwrap();
    assert_eq!(g.v(), 3);
    assert_eq!(g.adj(2), &[0]);
    assert_eq!(g.adj(0), &[1]);
    assert!(matches!(read_graph_from_string("1 2\n\n3 4"), Err(ParseError::MalformedLine)));
    assert!(matches!(read_graph_from_string("0 2"), Err(ParseError::MalformedLine)));
    assert!(matches!(read_graph_from_string("1 x"), Err(ParseError::MalformedLine)));
    assert!(matches!(read_graph_from_string("1 2 3"), Err(ParseError::MalformedLine)));
    assert!(matches!(read_graph_from_string("1"), Err(ParseError::MalformedLine)));
    assert!(matches!(read_graph_from_string("1 99999999999999999999999"), Err(ParseError::MalformedLine)));
}

#[test]
fn scc_splits_a_one_way_edge() {
    let mut g = Digraph::new(2);
    g.add_edge(0, 1);
    let scc = g.kosaraju_sharir_scc();
    assert_eq!(scc.count(), 2);
    assert!(!scc.connected(0, 1));
    assert_eq!(scc.week4_programming_assignment(), vec![1, 1]);
}

#[test]
fn reverse_postorder_of_a_small_cycle() {
    let mut g = Digraph::new(3);
    g.add_edge(0, 2);
    g.add_edge(0, 1);
    g.add_edge(1, 0);
    assert_eq!(g.reverse_postorder(), vec![0, 2, 1]);
}
