use diameter::add_link;
use diameter::collect_servers;
use diameter::get_farthest;
use diameter::SpanningTree;

#[test]
fn check_farthest() {
    let servers: Vec<Vec<usize>> = vec![
        vec![1, 3],
        vec![0, 2],
        vec![1],
        vec![0, 4],
        vec![3, 5],
        vec![4],
    ];

    assert_eq!(get_farthest(0, &servers), (5, 3));
}

#[test]
#[should_panic]
fn check_nonexist_server() {
    let servers: Vec<Vec<usize>> = vec![vec![1, 2, 3], vec![0], vec![0]];

    get_farthest(0, &servers);
}

#[test]
fn empty_tree_has_no_diameter() {
    let graph = SpanningTree::default();
    assert_eq!(graph.diameter(), None);
}

#[test]
fn doc_example_four_node_path() {
    let mut graph = SpanningTree::default();
    graph.add_link("yip", "yap");
    graph.add_link("yap", "yop");
    graph.add_link("yop", "yote");
    let (length, a, b) = graph.diameter().unwrap();
    assert_eq!(length, 3);
    assert_eq!(a, "yote");
    assert_eq!(b, "yip");
}

#[test]
fn doc_example_ids_and_tree() {
    let mut graph = SpanningTree::default();
    let ids = graph.add_link("some.server", "other.server");
    assert_eq!(ids, (0, 1));

    let mut graph = SpanningTree::default();
    graph.add_link("yip", "yap");
    let (edges, names) = graph.tree();
    let (farthest, distance) = get_farthest(0, edges);
    assert_eq!(names[farthest], "yap");
    assert_eq!(distance, 1);
}

#[test]
fn chain_diameter_is_length_minus_one() {
    for n in 2..10usize {
        let mut graph = SpanningTree::default();
        for i in 1..n {
            graph.add_link(&format!("node{}", i - 1), &format!("node{}", i));
        }
        let (length, a, b) = graph.diameter().unwrap();
        assert_eq!(length, n - 1);
        let first = "node0".to_string();
        let last = format!("node{}", n - 1);
        assert!(
            (a == first && b == last) || (a == last && b == first),
            "expected the two chain ends, got {} and {}",
            a,
            b
        );
    }
}

#[test]
fn star_diameter_is_two_between_leaves() {
    for k in 2..8usize {
        let mut graph = SpanningTree::default();
        let mut leaves: Vec<String> = Vec::new();
        for i in 0..k {
            let leaf = format!("leaf{}", i);
            graph.add_link("center", &leaf);
            leaves.push(leaf);
        }
        let (length, a, b) = graph.diameter().unwrap();
        assert_eq!(length, 2);
        assert_ne!(a, b);
        assert!(leaves.contains(&a), "{} is not a leaf", a);
        assert!(leaves.contains(&b), "{} is not a leaf", b);
    }
}

#[test]
fn self_link_registers_node_but_keeps_entries() {
    let mut graph = SpanningTree::default();
    let ids = graph.add_link("x", "x");
    assert_eq!(ids, (0, 0));
    {
        let (edges, names) = graph.tree();
        assert_eq!(names.len(), 1);
        assert_eq!(names[0], "x");
        assert_eq!(edges.len(), 1);
        assert!(edges[0].is_empty());
    }
    assert_eq!(
        graph.diameter(),
        Some((0, "x".to_string(), "x".to_string()))
    );

    // a self-link on an existing, connected node changes no entry sizes
    let mut graph = SpanningTree::default();
    graph.add_link("a", "b");
    let sizes_before: Vec<usize> = graph.tree().0.iter().map(|e| e.len()).collect();
    graph.add_link("a", "a");
    let sizes_after: Vec<usize> = graph.tree().0.iter().map(|e| e.len()).collect();
    assert_eq!(sizes_before, sizes_after);
}

#[test]
fn repeated_links_add_no_nodes_but_parallel_edges() {
    let mut graph = SpanningTree::default();
    for _ in 0..3 {
        graph.add_link("a", "b");
    }
    let (edges, names) = graph.tree();
    assert_eq!(names.len(), 2);
    assert_eq!(edges[0].len(), 3);
    assert_eq!(edges[1].len(), 3);
    assert_eq!(edges[0], vec![1, 1, 1]);
    assert_eq!(edges[1], vec![0, 0, 0]);
}

#[test]
fn branching_path_example() {
    let mut graph = SpanningTree::default();
    graph.add_link("A", "B");
    graph.add_link("B", "C");
    graph.add_link("C", "D");
    graph.add_link("D", "E");
    graph.add_link("D", "F");
    let (length, a, b) = graph.diameter().unwrap();
    assert_eq!(length, 4);
    let pair = if a < b { (a, b) } else { (b, a) };
    let a_e = ("A".to_string(), "E".to_string());
    let a_f = ("A".to_string(), "F".to_string());
    assert!(
        pair == a_e || pair == a_f,
        "unexpected endpoints {} and {}",
        pair.0,
        pair.1
    );
}

#[test]
fn get_id_finds_known_names_only() {
    let mut graph = SpanningTree::default();
    graph.add_link("alpha", "beta");
    graph.add_link("beta", "gamma");
    assert_eq!(graph.get_id("alpha"), Some(0));
    assert_eq!(graph.get_id("beta"), Some(1));
    assert_eq!(graph.get_id("gamma"), Some(2));
    assert_eq!(graph.get_id("delta"), None);
    assert_eq!(SpanningTree::default().get_id("alpha"), None);
}

#[test]
fn map_style_add_link_and_collect() {
    let mut namelookup: Vec<String> = Vec::new();
    let mut servers: Vec<Vec<usize>> = Vec::new();
    add_link(
        "a".to_string(),
        "b".to_string(),
        &mut namelookup,
        &mut servers,
    );
    add_link(
        "b".to_string(),
        "c".to_string(),
        &mut namelookup,
        &mut servers,
    );
    assert_eq!(namelookup, vec!["a", "b", "c"]);
    assert_eq!(servers, vec![vec![1], vec![0, 2], vec![1]]);

    let (collected_servers, collected_names) = collect_servers(servers, namelookup);
    assert_eq!(collected_names, vec!["a", "b", "c"]);
    assert_eq!(get_farthest(0, &collected_servers), (2, 2));
}

#[test]
fn map_style_add_link_records_self_loops() {
    let mut namelookup: Vec<String> = Vec::new();
    let mut servers: Vec<Vec<usize>> = Vec::new();
    add_link(
        "a".to_string(),
        "b".to_string(),
        &mut namelookup,
        &mut servers,
    );
    add_link(
        "c".to_string(),
        "c".to_string(),
        &mut namelookup,
        &mut servers,
    );
    assert_eq!(namelookup, vec!["a", "b", "c"]);
    assert_eq!(servers, vec![vec![1], vec![0], vec![2, 2]]);
}

/// Hop distances from `start` by breadth-first search, the reference for
/// the double-sweep check.
fn bfs_distances(edges: &[Vec<usize>], start: usize) -> Vec<Option<usize>> {
    let mut dist: Vec<Option<usize>> = vec![None; edges.len()];
    dist[start] = Some(0);
    let mut queue: Vec<usize> = vec![start];
    let mut head: usize = 0;
    while head < queue.len() {
        let v = queue[head];
        head += 1;
        let d = dist[v].unwrap();
        for &w in &edges[v] {
            if dist[w].is_none() {
                dist[w] = Some(d + 1);
                queue.push(w);
            }
        }
    }
    dist
}

fn brute_force_diameter(edges: &[Vec<usize>]) -> usize {
    let mut best: usize = 0;
    for start in 0..edges.len() {
        for d in bfs_distances(edges, start) {
            if let Some(d) = d {
                if d > best {
                    best = d;
                }
            }
        }
    }
    best
}

#[test]
fn double_sweep_matches_brute_force_on_random_trees() {
    let mut state: u64 = 0x853c49e6748fea9b;
    let mut next = move |bound: usize| -> usize {
        state = state
            .wrapping_mul(6364136223846793005)
            .wrapping_add(1442695040888963407);
        ((state >> 33) as usize) % bound
    };

    for round in 0..80 {
        let n = 2 + next(40);
        let mut graph = SpanningTree::default();
        for i in 1..n {
            let parent = next(i);
            graph.add_link(&format!("t{}-{}", round, parent), &format!("t{}-{}", round, i));
        }
        let (edges, _names) = graph.tree();
        let expected = brute_force_diameter(edges);

        // the library's double sweep
        let (length, _a, _b) = graph.diameter().unwrap();
        assert_eq!(length, expected, "tree of {} nodes in round {}", n, round);

        // the same double sweep run by hand from an arbitrary start
        let start = next(n);
        let (far, _d) = get_farthest(start, edges);
        let (_other, dist) = get_farthest(far, edges);
        assert_eq!(dist, expected, "sweep from {} in round {}", start, round);
    }
}

#[test]
fn sweep_from_isolated_node_stays_put() {
    // a self-linked node is registered but disconnected; a sweep starting
    // there finds nothing deeper than the start itself
    let mut graph = SpanningTree::default();
    graph.add_link("a", "b");
    graph.add_link("loner", "loner");
    let loner = graph.get_id("loner").unwrap();
    let (edges, _names) = graph.tree();
    assert_eq!(get_farthest(loner, edges), (loner, 0));
}
