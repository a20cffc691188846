use cost::graph_iterator::NodesEdgesMemMapper;
use cost::label_propagation::label_propagation;
use cost::label_propagation::Labels;
use cost::stats::stats;
use cost::twitter_parser::ReaderMapper;
use cost::union_find::union_find;
use cost::union_find::UnionFind;

fn words(values: &[u32]) -> Vec<u8> {
    let mut out: Vec<u8> = Vec::new();
    for v in values {
        out.extend_from_slice(&v.to_le_bytes());
    }
    out
}

#[test]
fn union_find_on_a_path() {
    let nodes = words(&[0, 1, 2, 3, 3]);
    let edges = words(&[1, 2, 3]);
    let graph = NodesEdgesMemMapper::new(&nodes, &edges).unwrap();
    let bound = stats(&graph).nodes().unwrap();
    assert_eq!(bound, 4);
    let forest = union_find(&graph, bound);
    let root = forest.find(0);
    assert_eq!(forest.find(1), root);
    assert_eq!(forest.find(2), root);
    assert_eq!(forest.find(3), root);
    assert_eq!(root, 0);
    assert_eq!(forest.non_roots(), 3);
}

#[test]
fn union_find_keeps_components_apart() {
    let text = b"0 1\n2 3\n5 5\n3 4\n1 0\n";
    let graph = ReaderMapper::new(text).unwrap();
    let forest = union_find(&graph, 7);
    assert_eq!(forest.find(0), forest.find(1));
    assert_eq!(forest.find(2), forest.find(3));
    assert_eq!(forest.find(3), forest.find(4));
    assert_ne!(forest.find(0), forest.find(2));
    assert_ne!(forest.find(5), forest.find(0));
    assert_ne!(forest.find(5), forest.find(2));
    assert_eq!(forest.find(5), 5);
    assert_eq!(forest.find(6), 6);
    // seven vertices in four components
    assert_eq!(forest.non_roots(), 3);
}

#[test]
fn union_find_lower_rank_goes_below() {
    // 0-1 makes a tree of rank one with root 0; 2 has rank zero and goes below it
    let text = b"0 1 2 0";
    let graph = ReaderMapper::new(text).unwrap();
    let forest = union_find(&graph, 3);
    assert_eq!(forest.find(2), 0);
    assert_eq!(forest.find(1), 0);
    // of two roots of one rank, the root of the target goes below the root of the source
    let text = b"3 1";
    let graph = ReaderMapper::new(text).unwrap();
    let forest = union_find(&graph, 4);
    assert_eq!(forest.find(1), 3);
    assert_eq!(forest.find(3), 3);
}

#[test]
fn union_find_fresh_forest() {
    let forest = UnionFind::new(3);
    assert_eq!(forest.find(0), 0);
    assert_eq!(forest.find(1), 1);
    assert_eq!(forest.find(2), 2);
    assert_eq!(forest.non_roots(), 0);
}

#[test]
fn label_propagation_finds_least_vertex_of_each_component() {
    let text = b"4 3\n3 2\n2 1\n6 5\n";
    let graph = ReaderMapper::new(text).unwrap();
    let found = label_propagation(&graph, 8);
    let labels: Vec<u32> = (0..8).map(|v| found.label.get(v)).collect();
    assert_eq!(labels, vec![0, 1, 1, 1, 1, 5, 5, 7]);
    assert_eq!(found.label.non_roots(), 4);
    assert_eq!(found.label.len(), 8);
}

#[test]
fn label_propagation_counts_passes() {
    // the label 1 has to travel against the order of the edges: one step per pass
    let text = b"4 3\n3 2\n2 1\n";
    let graph = ReaderMapper::new(text).unwrap();
    let found = label_propagation(&graph, 5);
    assert_eq!(found.passes, 4);
    // along the order of the edges one pass is enough, and one more to see it
    let text = b"1 2\n2 3\n3 4\n";
    let graph = ReaderMapper::new(text).unwrap();
    let found = label_propagation(&graph, 5);
    assert_eq!(found.passes, 2);
    assert_eq!(found.label.sum(), 0 + 1 + 1 + 1 + 1);
}

#[test]
fn label_propagation_without_edges_makes_one_pass() {
    let graph = ReaderMapper::new(b"").unwrap();
    let found = label_propagation(&graph, 3);
    assert_eq!(found.passes, 1);
    assert_eq!(found.label.non_roots(), 0);
    assert_eq!(found.label.sum(), 3);
}

#[test]
fn label_propagation_on_tiny_cycle() {
    let nodes = words(&[0, 1, 2, 3]);
    let edges = words(&[1, 2, 0]);
    let graph = NodesEdgesMemMapper::new(&nodes, &edges).unwrap();
    let found = label_propagation(&graph, 3);
    assert_eq!(found.label.get(0), 0);
    assert_eq!(found.label.get(1), 0);
    assert_eq!(found.label.get(2), 0);
    assert_eq!(found.label.non_roots(), 2);
}

#[test]
fn fresh_labels_are_the_vertices() {
    let labels = Labels::new(4);
    assert_eq!(labels.sum(), 6);
    assert_eq!(labels.get(3), 3);
    assert_eq!(labels.non_roots(), 0);
}
