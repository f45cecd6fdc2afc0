use depmin::Error;
use depmin::bytes::{bytes_ends_with, bytes_eq, bytes_lt};
use depmin::graph::GraphRef;
use depmin::scan::{Crate, candidate_from_line, is_interesting_crate};

fn bv(s: &str) -> Vec<u8> {
    s.as_bytes().to_vec()
}

/// The example graph: A -> B, A -> C, B -> C, C -> D.
fn example() -> GraphRef {
    let entries: Vec<(Vec<u8>, Vec<Vec<u8>>)> = vec![
        (bv("A"), vec![bv("B"), bv("C")]),
        (bv("B"), vec![bv("C")]),
        (bv("C"), vec![bv("D")]),
        (bv("D"), vec![]),
    ];
    GraphRef::build(&entries)
}

#[test]
fn build_interns_names_sorted() {
    let entries: Vec<(Vec<u8>, Vec<Vec<u8>>)> = vec![
        (bv("delta"), vec![]),
        (bv("alpha"), vec![bv("delta")]),
        (bv("charlie"), vec![]),
    ];
    let g = GraphRef::build(&entries);
    assert_eq!(g.names, vec![bv("alpha"), bv("charlie"), bv("delta")]);
    assert_eq!(g.adj, vec![vec![2], vec![], vec![]]);
}

#[test]
fn module_count_handles_and_direct_deps() {
    let g = example();
    assert_eq!(g.len(), 4);
    assert_eq!(g.find_module(&bv("A")), Some(0));
    assert_eq!(g.find_module(&bv("C")), Some(2));
    assert_eq!(g.first_order_deps(0), &vec![1, 2]);
    assert_eq!(g.first_order_deps(3), &Vec::<usize>::new());
}

#[test]
fn byte_string_order_is_lexicographic() {
    assert!(bytes_lt(&bv("abc"), &bv("abd")));
    assert!(bytes_lt(&bv("ab"), &bv("abc")));
    assert!(!bytes_lt(&bv("abc"), &bv("abc")));
    assert!(!bytes_lt(&bv("b"), &bv("ab")));
    assert!(bytes_eq(&bv("same"), &bv("same")));
    assert!(!bytes_eq(&bv("same"), &bv("sama")));
    assert!(bytes_ends_with(&bv("gazebo_tests"), &bv("_tests")));
    assert!(!bytes_ends_with(&bv("ts"), &bv("_tests")));
}

#[test]
fn closure_of_example() {
    let g = example();
    // Handles are in name order: A=0, B=1, C=2, D=3.
    assert_eq!(g.all_deps(0), vec![1, 2, 3]);
    assert_eq!(g.all_deps(1), vec![2, 3]);
    assert_eq!(g.all_deps(2), vec![3]);
    assert_eq!(g.all_deps(3), Vec::<usize>::new());
}

#[test]
fn closure_inclusive_adds_the_module_itself() {
    let g = example();
    assert_eq!(g.all_deps_including_self(0), Ok(vec![0, 1, 2, 3]));
    assert_eq!(g.all_deps_including_self(3), Ok(vec![3]));
}

#[test]
fn unknown_target_is_not_found() {
    let g = example();
    assert_eq!(g.all_deps_including_self(9), Err(Error::NotFound));
    assert!(matches!(g.graph_leading_to(7), Err(Error::NotFound)));
    assert_eq!(g.find_module(&bv("nonexistent")), None);
}

#[test]
fn extractor_keeps_the_whole_ancestor_graph_of_a() {
    let g = example();
    let h = g.graph_leading_to(0).unwrap();
    assert_eq!(h.names, vec![bv("A"), bv("B"), bv("C"), bv("D")]);
    assert_eq!(h.adj, vec![vec![1, 2], vec![2], vec![3], vec![]]);
}

#[test]
fn extractor_drops_unrelated_modules() {
    let entries: Vec<(Vec<u8>, Vec<Vec<u8>>)> = vec![
        (bv("A"), vec![bv("C")]),
        (bv("B"), vec![bv("C")]),
        (bv("C"), vec![]),
    ];
    let g = GraphRef::build(&entries);
    let h = g.graph_leading_to(0).unwrap();
    assert_eq!(h.names, vec![bv("A"), bv("C")]);
    assert_eq!(h.adj, vec![vec![1], vec![]]);
}

#[test]
fn reducer_drops_the_redundant_edge() {
    let g = example();
    // indirectlyReachable(A) = closure(B) + closure(C) = {C, D};
    // minimalDeps(A) = {B, C} - {C, D} = {B}.
    assert_eq!(g.deps_reachable_via_first_order_deps(0), vec![2, 3]);
    assert_eq!(g.min_necessary_deps(0), vec![1]);
    let m = g.min_graph();
    assert_eq!(m.names, g.names);
    assert_eq!(m.adj, vec![vec![1], vec![2], vec![3], vec![]]);
}

#[test]
fn reduction_preserves_closures() {
    let g = example();
    let m = g.min_graph();
    for u in 0..4 {
        assert_eq!(g.all_deps_including_self(u), m.all_deps_including_self(u));
    }
}

#[test]
fn surviving_edges_are_load_bearing() {
    let g = example();
    let m = g.min_graph();
    // Take the one surviving edge out of A's row: D is no longer
    // reachable from A.
    let mut crippled_adj = m.adj.clone();
    crippled_adj[0] = vec![];
    let crippled = GraphRef { names: m.names, adj: crippled_adj };
    assert_eq!(crippled.all_deps(0), Vec::<usize>::new());
}

#[test]
fn reducer_is_idempotent() {
    let g = example();
    let m = g.min_graph();
    let mm = m.min_graph();
    assert_eq!(mm.names, m.names);
    assert_eq!(mm.adj, m.adj);
}

#[test]
fn unknown_tokens_never_become_edges() {
    let entries: Vec<(Vec<u8>, Vec<Vec<u8>>)> = vec![
        (bv("A"), vec![bv("B"), bv("mystery"), bv("1.0"), bv("")]),
        (bv("B"), vec![bv("also-unknown")]),
    ];
    let g = GraphRef::build(&entries);
    assert_eq!(g.names, vec![bv("A"), bv("B")]);
    assert_eq!(g.adj, vec![vec![1], vec![]]);
}

#[test]
fn self_edges_are_kept_by_the_builder() {
    let entries: Vec<(Vec<u8>, Vec<Vec<u8>>)> = vec![(bv("A"), vec![bv("A")])];
    let g = GraphRef::build(&entries);
    assert_eq!(g.adj, vec![vec![0]]);
}

#[test]
fn emission_is_dependency_before_dependent_in_canonical_order() {
    let g = example();
    let m = g.min_graph();
    let pairs = m.emit_edges();
    assert_eq!(
        pairs,
        vec![(bv("B"), bv("A")), (bv("C"), bv("B")), (bv("D"), bv("C"))]
    );
}

#[test]
fn full_pipeline_for_target_a() {
    let g = example();
    let target = g.find_module(&bv("A")).unwrap();
    let ancestors = g.graph_leading_to(target).unwrap();
    let minimal = ancestors.min_graph();
    let pairs = minimal.emit_edges();
    assert_eq!(
        pairs,
        vec![(bv("B"), bv("A")), (bv("C"), bv("B")), (bv("D"), bv("C"))]
    );
}

#[test]
fn two_runs_emit_byte_identical_output() {
    let entries: Vec<(Vec<u8>, Vec<Vec<u8>>)> = vec![
        (bv("A"), vec![bv("C"), bv("B")]),
        (bv("B"), vec![bv("C")]),
        (bv("C"), vec![bv("D")]),
        (bv("D"), vec![]),
    ];
    let one = GraphRef::build(&entries).min_graph().emit_edges();
    let two = GraphRef::build(&entries).min_graph().emit_edges();
    assert_eq!(one, two);
}

#[test]
fn candidate_extraction_takes_the_trimmed_left_hand_side() {
    assert_eq!(candidate_from_line(&bv("serde = \"1\"")), Some(bv("serde")));
    assert_eq!(candidate_from_line(&bv("  tokio\t = { workspace = true }")), Some(bv("tokio")));
    assert_eq!(candidate_from_line(&bv("[dependencies]")), None);
    assert_eq!(candidate_from_line(&bv("")), None);
    assert_eq!(candidate_from_line(&bv(" = 1")), Some(bv("")));
}

#[test]
fn interesting_crates_exclude_superconsole_and_test_directories() {
    assert!(is_interesting_crate(&bv("buck2")));
    assert!(!is_interesting_crate(&bv("superconsole")));
    assert!(!is_interesting_crate(&bv("gazebo_tests")));
    assert!(is_interesting_crate(&bv("tests_helper")));
}

#[test]
fn crate_paths_are_folder_slash_name() {
    let c = Crate { folder: bv("."), name: bv("app") };
    assert_eq!(c.path(), bv("./app"));
    assert_eq!(c.cargo_toml(), bv("./app/Cargo.toml"));
}
