use gitshrub::git::Commit;
use gitshrub::graph::{compute_graph, graph_fits, lane_color, max_lanes, LaneColor};

fn make_commit(sha: &str, parents: &[&str]) -> Commit {
    Commit {
        full_sha: sha.to_string(),
        short_sha: sha[..7.min(sha.len())].to_string(),
        parents: parents.iter().map(|s| s.to_string()).collect(),
        author_name: "Test".to_string(),
        author_email: "test@test.com".to_string(),
        date: "2024-01-01".to_string(),
        subject: "test commit".to_string(),
        body: String::new(),
        refs: Vec::new(),
    }
}

#[test]
fn linear_history() {
    let commits = vec![
        make_commit("aaa", &["bbb"]),
        make_commit("bbb", &["ccc"]),
        make_commit("ccc", &[]),
    ];

    let rows = compute_graph(&commits);
    assert_eq!(rows.len(), 3);

    // All commits should be in column 0 (linear history).
    for row in &rows {
        assert_eq!(row.node_col, 0);
    }
}

#[test]
fn simple_branch_and_merge() {
    // A merge commit with two parents, then two parallel commits,
    // then the common ancestor.
    //
    //   * aaa (merge of bbb and ccc)
    //   |\
    //   * | bbb (parent: ddd)
    //   | * ccc (parent: ddd)
    //   |/
    //   * ddd (root)
    let commits = vec![
        make_commit("aaa", &["bbb", "ccc"]),
        make_commit("bbb", &["ddd"]),
        make_commit("ccc", &["ddd"]),
        make_commit("ddd", &[]),
    ];

    let rows = compute_graph(&commits);
    assert_eq!(rows.len(), 4);

    // First commit (merge) should be in col 0.
    assert_eq!(rows[0].node_col, 0);

    // After the merge, there should be 2 lanes.
    assert!(rows[0].num_lanes >= 2);

    // bbb should be in col 0 (first parent continues the lane).
    assert_eq!(rows[1].node_col, 0);

    // ccc should be in col 1 (second parent lane).
    assert_eq!(rows[2].node_col, 1);

    // ddd should be back to col 0 (lanes merge).
    assert_eq!(rows[3].node_col, 0);
}

#[test]
fn empty_commits() {
    let rows = compute_graph(&[]);
    assert!(rows.is_empty());
}

#[test]
fn single_root_commit() {
    let commits = vec![make_commit("aaa", &[])];
    let rows = compute_graph(&commits);
    assert_eq!(rows.len(), 1);
    assert_eq!(rows[0].node_col, 0);
    assert!(rows[0].edges.is_empty());
}

#[test]
fn merge_edges_and_colors() {
    let commits = vec![
        make_commit("aaa", &["bbb", "ccc"]),
        make_commit("bbb", &["ddd"]),
        make_commit("ccc", &["ddd"]),
        make_commit("ddd", &[]),
    ];
    let rows = compute_graph(&commits);
    // The merge: its lane continues with bbb, a new lane (color 1) goes to ccc.
    let e0: Vec<(usize, usize, usize)> =
        rows[0].edges.iter().map(|e| (e.from_col, e.to_col, e.color_index)).collect();
    assert_eq!(e0, vec![(0, 0, 0), (0, 1, 1)]);
    assert_eq!(rows[0].num_lanes, 2);
    assert_eq!(rows[0].node_color_index, 0);
    // ccc sits in the second lane with its color.
    assert_eq!(rows[2].node_color_index, 1);
    // ccc's lane continues with ddd, so two lanes now wait for ddd.
    let e2: Vec<(usize, usize, usize)> =
        rows[2].edges.iter().map(|e| (e.from_col, e.to_col, e.color_index)).collect();
    assert_eq!(e2, vec![(0, 0, 0), (1, 1, 1)]);
    // Two lanes wait for ddd; the duplicate merges into the node's lane.
    assert_eq!(rows[3].node_col, 0);
    assert!(rows[3].edges.is_empty());
    assert_eq!(max_lanes(&rows), 2);
}

#[test]
fn duplicate_lanes_merge_into_first_parent() {
    // Two branch tips (aaa, bbb) both have parent ccc; then ccc with parent ddd.
    let commits = vec![
        make_commit("aaa", &["ccc"]),
        make_commit("bbb", &["ccc"]),
        make_commit("ccc", &["ddd"]),
        make_commit("ddd", &[]),
    ];
    let rows = compute_graph(&commits);
    assert_eq!(rows[0].node_col, 0);
    assert_eq!(rows[1].node_col, 1);
    assert_eq!(rows[1].node_color_index, 1);
    assert_eq!(rows[2].node_col, 0);
    let e2: Vec<(usize, usize, usize)> =
        rows[2].edges.iter().map(|e| (e.from_col, e.to_col, e.color_index)).collect();
    assert_eq!(e2, vec![(0, 0, 0), (1, 0, 1)]);
    assert_eq!(rows[3].node_col, 0);
}

#[test]
fn every_edge_lies_within_its_row() {
    let commits = vec![
        make_commit("a", &["b", "c", "d"]),
        make_commit("e", &["c"]),
        make_commit("b", &["d"]),
        make_commit("c", &["d", "b"]),
        make_commit("d", &[]),
    ];
    let rows = compute_graph(&commits);
    assert_eq!(rows.len(), commits.len());
    for row in &rows {
        assert!(row.node_col < row.num_lanes);
        for e in &row.edges {
            assert!(e.from_col < row.num_lanes);
            assert!(e.to_col < row.num_lanes);
        }
    }
}

#[test]
fn lane_colors_cycle() {
    assert_eq!(lane_color(0), LaneColor { r: 120, g: 180, b: 255 });
    assert_eq!(lane_color(7), LaneColor { r: 180, g: 200, b: 140 });
    assert_eq!(lane_color(9), LaneColor { r: 255, g: 140, b: 100 });
}

#[test]
fn max_lanes_of_nothing_is_one() {
    assert_eq!(max_lanes(&[]), 1);
}

#[test]
fn small_histories_fit() {
    let commits = vec![
        make_commit("c", &["b"]),
        make_commit("b", &["a"]),
        make_commit("a", &[]),
    ];
    assert!(graph_fits(&commits));
    assert!(graph_fits(&[]));
    assert_eq!(compute_graph(&commits).len(), 3);
}
