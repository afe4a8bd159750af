//! Commit graph layout: which column each commit's node sits in and which lines
//! connect one row of the commit list to the next.
use vstd::prelude::*;

use crate::git::{commit_views, Commit, CommitView};

verus! {

/// The visual elements for a single row in the graph column.
#[derive(Debug, Clone)]
pub struct GraphRow {
    /// Which column this commit's node sits in.
    pub node_col: usize,
    /// Total number of active lanes for this row (determines graph width).
    pub num_lanes: usize,
    /// Edges to draw for this row. Each edge connects a column in this row
    /// to a column in the next row.
    pub edges: Vec<Edge>,
    /// Color index for this commit's lane (for color-coding).
    pub node_color_index: usize,
}

/// An edge connecting a lane in the current row to a lane in the next row.
#[derive(Debug, Clone, Copy)]
pub struct Edge {
    /// Column in the current row where the edge starts.
    pub from_col: usize,
    /// Column in the next row where the edge ends.
    pub to_col: usize,
    /// Color index for this edge.
    pub color_index: usize,
}

/// Number of distinct lane colors available.
pub const NUM_LANE_COLORS: usize = 8;

// ---------------------------------------------------------------------------
// The layout, mathematically
// ---------------------------------------------------------------------------

/// An active lane: the SHA it waits to see next, and its color.
pub type LaneView = (Seq<char>, int);

/// An edge: from column, to column, color.
pub type EdgeView = (int, int, int);

/// A row of the layout.
pub struct RowView {
    pub node_col: int,
    pub num_lanes: int,
    pub edges: Seq<EdgeView>,
    pub node_color: int,
}

impl View for Edge {
    type V = EdgeView;

    open spec fn view(&self) -> EdgeView {
        (self.from_col as int, self.to_col as int, self.color_index as int)
    }
}

pub open spec fn edge_views(es: Seq<Edge>) -> Seq<EdgeView> {
    es.map_values(|e: Edge| e@)
}

impl View for GraphRow {
    type V = RowView;

    open spec fn view(&self) -> RowView {
        RowView {
            node_col: self.node_col as int,
            num_lanes: self.num_lanes as int,
            edges: edge_views(self.edges@),
            node_color: self.node_color_index as int,
        }
    }
}

pub open spec fn row_views(rs: Seq<GraphRow>) -> Seq<RowView> {
    rs.map_values(|r: GraphRow| r@)
}

/// The leftmost lane among the first `k` that waits for `sha`.
pub open spec fn first_lane_below(lanes: Seq<LaneView>, sha: Seq<char>, k: int) -> Option<int>
    decreases k,
{
    if k <= 0 {
        None
    } else {
        match first_lane_below(lanes, sha, k - 1) {
            Some(i) => Some(i),
            None => if lanes[k - 1].0 == sha {
                Some(k - 1)
            } else {
                None
            },
        }
    }
}

/// The leftmost lane that waits for `sha`.
pub open spec fn lane_of(lanes: Seq<LaneView>, sha: Seq<char>) -> Option<int> {
    first_lane_below(lanes, sha, lanes.len() as int)
}

/// The lanes and the next fresh color between two rows.
pub struct LayoutState {
    pub lanes: Seq<LaneView>,
    pub next_color: int,
}

/// Where a commit's node goes: the lane waiting for it, or else a new lane on
/// the right with a fresh color. Gives the column, the color and the state with
/// that lane in place.
pub open spec fn place_node(st: LayoutState, sha: Seq<char>) -> (int, int, LayoutState) {
    match lane_of(st.lanes, sha) {
        Some(c) => (c, st.lanes[c].1, st),
        None => (
            st.lanes.len() as int,
            st.next_color,
            LayoutState { lanes: st.lanes.push((sha, st.next_color)), next_color: st.next_color + 1 },
        ),
    }
}

/// The lanes of the next row and the edges, after the first `k` lanes of
/// `lanes` have been mapped: the node's lane continues with the first parent
/// (or ends when there is none), the other lanes that waited for the same SHA
/// merge into the lane of the first parent, and every other lane passes through.
pub open spec fn map_lanes(
    lanes: Seq<LaneView>,
    node_col: int,
    sha: Seq<char>,
    parents: Seq<Seq<char>>,
    k: int,
) -> (Seq<LaneView>, Seq<EdgeView>)
    decreases k,
{
    if k <= 0 {
        (Seq::empty(), Seq::empty())
    } else {
        let (next, edges) = map_lanes(lanes, node_col, sha, parents, k - 1);
        let col = k - 1;
        let lane = lanes[col];
        if col == node_col {
            if parents.len() > 0 {
                (next.push((parents[0], lane.1)), edges.push((col, next.len() as int, lane.1)))
            } else {
                (next, edges)
            }
        } else if lane.0 == sha {
            let target = if parents.len() > 0 {
                parents[0]
            } else {
                sha
            };
            match lane_of(next, target) {
                Some(t) => (next, edges.push((col, t, lane.1))),
                None => (next, edges),
            }
        } else {
            (next.push(lane), edges.push((col, next.len() as int, lane.1)))
        }
    }
}

/// `ps` without every copy of `x`.
pub open spec fn remove_all(ps: Seq<Seq<char>>, x: Seq<char>) -> Seq<Seq<char>>
    decreases ps.len(),
{
    if ps.len() == 0 {
        Seq::empty()
    } else {
        let r = remove_all(ps.drop_last(), x);
        if ps.last() == x {
            r
        } else {
            r.push(ps.last())
        }
    }
}

/// The parents after the first, without copies of the first.
pub open spec fn other_parents(parents: Seq<Seq<char>>) -> Seq<Seq<char>> {
    if parents.len() > 0 {
        remove_all(parents, parents[0])
    } else {
        parents
    }
}

/// After the first `k` other parents: each joins the lane already waiting for
/// it, or gets a new lane on the right; either way with an edge from the node
/// and a fresh color.
pub open spec fn add_parents(
    next: Seq<LaneView>,
    edges: Seq<EdgeView>,
    color: int,
    node_col: int,
    rest: Seq<Seq<char>>,
    k: int,
) -> (Seq<LaneView>, Seq<EdgeView>, int)
    decreases k,
{
    if k <= 0 {
        (next, edges, color)
    } else {
        let (n, e, c) = add_parents(next, edges, color, node_col, rest, k - 1);
        let p = rest[k - 1];
        match lane_of(n, p) {
            Some(t) => (n, e.push((node_col, t, c)), c + 1),
            None => (n.push((p, c)), e.push((node_col, n.len() as int, c)), c + 1),
        }
    }
}

/// One commit's row, and the state for the next commit.
pub open spec fn layout_step(st: LayoutState, c: CommitView) -> (RowView, LayoutState) {
    let (node_col, node_color, st1) = place_node(st, c.full_sha);
    let lanes = st1.lanes;
    let (next1, edges1) = map_lanes(lanes, node_col, c.full_sha, c.parents, lanes.len() as int);
    let rest = other_parents(c.parents);
    let (next, edges, color) = add_parents(
        next1,
        edges1,
        st1.next_color,
        node_col,
        rest,
        rest.len() as int,
    );
    let num_lanes = if lanes.len() >= next.len() {
        lanes.len() as int
    } else {
        next.len() as int
    };
    (
        RowView { node_col, num_lanes, edges, node_color },
        LayoutState { lanes: next, next_color: color },
    )
}

/// The state and the rows after the first `k` commits.
pub open spec fn layout(cs: Seq<CommitView>, k: int) -> (LayoutState, Seq<RowView>)
    decreases k,
{
    if k <= 0 {
        (LayoutState { lanes: Seq::empty(), next_color: 0 }, Seq::empty())
    } else {
        let (st, rows) = layout(cs, k - 1);
        let (row, st2) = layout_step(st, cs[k - 1]);
        (st2, rows.push(row))
    }
}

/// The graph layout of a commit list: one row per commit, in order.
pub open spec fn graph_rows(cs: Seq<CommitView>) -> Seq<RowView> {
    layout(cs, cs.len() as int).1
}

/// How many commits and parent entries there are; colors never exceed it.
pub open spec fn graph_size(cs: Seq<CommitView>, k: int) -> int
    decreases k,
{
    if k <= 0 {
        0
    } else {
        graph_size(cs, k - 1) + 1 + cs[k - 1].parents.len()
    }
}


// ---------------------------------------------------------------------------
// Lemmas
// ---------------------------------------------------------------------------

proof fn lemma_first_lane_below_stable(lanes: Seq<LaneView>, sha: Seq<char>, k: int, m: int)
    requires
        0 <= k <= m,
        first_lane_below(lanes, sha, k) is Some,
    ensures
        first_lane_below(lanes, sha, m) == first_lane_below(lanes, sha, k),
    decreases m - k,
{
    if m > k {
        lemma_first_lane_below_stable(lanes, sha, k, m - 1);
    }
}

/// The lane that `lane_of` finds waits for the SHA, is in range, and no lane
/// to its left waits for it; when there is none, no lane waits for it.
pub proof fn lemma_first_lane_below(lanes: Seq<LaneView>, sha: Seq<char>, k: int)
    requires
        0 <= k <= lanes.len(),
    ensures
        match first_lane_below(lanes, sha, k) {
            Some(i) => 0 <= i < k && lanes[i].0 == sha && forall|j: int|
                0 <= j < i ==> lanes[j].0 != sha,
            None => forall|j: int| 0 <= j < k ==> lanes[j].0 != sha,
        },
    decreases k,
{
    if k > 0 {
        lemma_first_lane_below(lanes, sha, k - 1);
    }
}

proof fn lemma_remove_all_len(ps: Seq<Seq<char>>, x: Seq<char>)
    ensures
        remove_all(ps, x).len() <= ps.len(),
    decreases ps.len(),
{
    if ps.len() > 0 {
        lemma_remove_all_len(ps.drop_last(), x);
    }
}

proof fn lemma_remove_all_take(ps: Seq<Seq<char>>, x: Seq<char>, k: int)
    requires
        0 <= k < ps.len(),
    ensures
        remove_all(ps.take(k + 1), x) == if ps[k] == x {
            remove_all(ps.take(k), x)
        } else {
            remove_all(ps.take(k), x).push(ps[k])
        },
{
    assert(ps.take(k + 1).drop_last() =~= ps.take(k));
}

proof fn lemma_graph_size_mono(cs: Seq<CommitView>, k: int, m: int)
    requires
        0 <= k <= m,
    ensures
        graph_size(cs, k) <= graph_size(cs, m),
    decreases m - k,
{
    if m > k {
        lemma_graph_size_mono(cs, k, m - 1);
    }
}

// ---------------------------------------------------------------------------
// Executable layout
// ---------------------------------------------------------------------------

/// The lanes as SHA and color.
pub open spec fn lanes_view(l: Seq<(String, usize)>) -> Seq<LaneView> {
    l.map_values(|x: (String, usize)| (x.0@, x.1 as int))
}

proof fn lemma_lanes_view_push(l: Seq<(String, usize)>, x: (String, usize))
    ensures
        lanes_view(l.push(x)) == lanes_view(l).push((x.0@, x.1 as int)),
{
    assert(lanes_view(l.push(x)) =~= lanes_view(l).push((x.0@, x.1 as int)));
}

proof fn lemma_edge_views_push(es: Seq<Edge>, e: Edge)
    ensures
        edge_views(es.push(e)) == edge_views(es).push(e@),
{
    assert(edge_views(es.push(e)) =~= edge_views(es).push(e@));
}

/// Find the leftmost lane that is expecting the given SHA.
fn find_lane(lanes: &Vec<(String, usize)>, sha: &String) -> (r: Option<usize>)
    ensures
        match r {
            Some(i) => lane_of(lanes_view(lanes@), sha@) == Some(i as int),
            None => lane_of(lanes_view(lanes@), sha@) is None,
        },
{
    let ghost lv = lanes_view(lanes@);
    let mut i: usize = 0;
    while i < lanes.len()
        invariant
            i <= lanes@.len(),
            lv == lanes_view(lanes@),
            first_lane_below(lv, sha@, i as int) is None,
        decreases lanes@.len() - i,
    {
        if lanes[i].0 == *sha {
            proof {
                assert(lv[i as int].0 == sha@);
                assert(first_lane_below(lv, sha@, i + 1) == Some(i as int));
                lemma_first_lane_below_stable(lv, sha@, i + 1, lv.len() as int);
            }
            return Some(i);
        }
        i = i + 1;
    }
    None
}

/// The parents after the first, without copies of the first.
fn other_parents_of(parents: &Vec<String>) -> (r: Vec<String>)
    ensures
        r.deep_view() == other_parents(parents.deep_view()),
{
    let ghost ps = parents.deep_view();
    let mut r: Vec<String> = Vec::new();
    if parents.len() == 0 {
        assert(r.deep_view() =~= ps);
        return r;
    }
    let first = &parents[0];
    let mut k: usize = 0;
    assert(ps.take(0) =~= Seq::<Seq<char>>::empty());
    assert(r.deep_view() =~= Seq::<Seq<char>>::empty());
    while k < parents.len()
        invariant
            k <= parents@.len(),
            parents@.len() > 0,
            ps == parents.deep_view(),
            first@ == ps[0],
            r.deep_view() == remove_all(ps.take(k as int), ps[0]),
        decreases parents@.len() - k,
    {
        proof {
            lemma_remove_all_take(ps, ps[0], k as int);
        }
        assert(ps[k as int] == parents[k as int]@);
        if parents[k] != *first {
            let ghost prev = r.deep_view();
            r.push(parents[k].clone());
            assert(r.deep_view() =~= prev.push(ps[k as int]));
        }
        k = k + 1;
    }
    assert(ps.take(parents@.len() as int) =~= ps);
    r
}

/// Lay out one commit's row: update the lanes and the next color, return the row.
fn layout_commit(commit: &Commit, lanes: &mut Vec<(String, usize)>, next_color: &mut usize) -> (row:
    GraphRow)
    requires
        *old(next_color) + 1 + commit.parents@.len() <= usize::MAX,
    ensures
        (row@, LayoutState { lanes: lanes_view(final(lanes)@), next_color: *final(next_color) as int })
            == layout_step(
            LayoutState { lanes: lanes_view(old(lanes)@), next_color: *old(next_color) as int },
            commit@,
        ),
        *final(next_color) <= *old(next_color) + 1 + commit.parents@.len(),
{
    let ghost st0 = LayoutState {
        lanes: lanes_view(lanes@),
        next_color: *next_color as int,
    };
    let ghost c = commit@;
    let sha = &commit.full_sha;
    let parents = &commit.parents;

    // Find the column for this commit: the leftmost lane expecting this SHA.
    // No lane is expecting it for the first commit or when a branch appears
    // that was not seen before: a new lane goes on the right.
    let (node_col, node_color_index) = match find_lane(lanes, sha) {
        Some(col) => {
            proof {
                lemma_first_lane_below(st0.lanes, sha@, st0.lanes.len() as int);
            }
            (col, lanes[col].1)
        },
        None => {
            let color = *next_color;
            *next_color = *next_color + 1;
            let col = lanes.len();
            proof {
                lemma_lanes_view_push(lanes@, (*sha, color));
            }
            lanes.push((sha.clone(), color));
            (col, color)
        },
    };
    let ghost placed = place_node(st0, c.full_sha);
    assert(placed.0 == node_col as int && placed.1 == node_color_index as int);
    assert(placed.2.lanes == lanes_view(lanes@) && placed.2.next_color == *next_color as int);
    assert(node_col < lanes@.len());
    let ghost lv = lanes_view(lanes@);
    let ghost pv = parents.deep_view();

    // Pass 1: map the current lanes to the next row.
    let mut next_lanes: Vec<(String, usize)> = Vec::new();
    let mut edges: Vec<Edge> = Vec::new();
    let mut col: usize = 0;
    assert(lanes_view(next_lanes@) =~= Seq::<LaneView>::empty());
    assert(edge_views(edges@) =~= Seq::<EdgeView>::empty());
    while col < lanes.len()
        invariant
            col <= lanes@.len(),
            node_col < lanes@.len(),
            lv == lanes_view(lanes@),
            pv == parents.deep_view(),
            c == commit@,
            sha@ == c.full_sha,
            pv == c.parents,
            (lanes_view(next_lanes@), edge_views(edges@)) == map_lanes(
                lv,
                node_col as int,
                sha@,
                pv,
                col as int,
            ),
        decreases lanes@.len() - col,
    {
        let lane_color = lanes[col].1;
        assert(lv[col as int] == (lanes@[col as int].0@, lane_color as int));
        if col == node_col {
            if parents.len() > 0 {
                let new_col = next_lanes.len();
                proof {
                    lemma_lanes_view_push(next_lanes@, (parents@[0], lane_color));
                    lemma_edge_views_push(
                        edges@,
                        Edge { from_col: col, to_col: new_col, color_index: lane_color },
                    );
                }
                next_lanes.push((parents[0].clone(), lane_color));
                edges.push(Edge { from_col: col, to_col: new_col, color_index: lane_color });
            }
        } else if lanes[col].0 == *sha {
            // This duplicate lane merges into the lane of the node's first parent.
            let target = if parents.len() > 0 {
                &parents[0]
            } else {
                sha
            };
            if let Some(t) = find_lane(&next_lanes, target) {
                proof {
                    lemma_edge_views_push(
                        edges@,
                        Edge { from_col: col, to_col: t, color_index: lane_color },
                    );
                }
                edges.push(Edge { from_col: col, to_col: t, color_index: lane_color });
            }
        } else {
            // This lane passes through.
            let new_col = next_lanes.len();
            proof {
                lemma_lanes_view_push(next_lanes@, (lanes@[col as int].0, lane_color));
                lemma_edge_views_push(
                    edges@,
                    Edge { from_col: col, to_col: new_col, color_index: lane_color },
                );
            }
            next_lanes.push((lanes[col].0.clone(), lane_color));
            edges.push(Edge { from_col: col, to_col: new_col, color_index: lane_color });
        }
        col = col + 1;
    }
    let ghost next1 = lanes_view(next_lanes@);
    let ghost edges1 = edge_views(edges@);
    let ghost color1 = *next_color as int;

    // Pass 2: add lanes for the remaining parents (2nd, 3rd, etc.).
    let rest = other_parents_of(parents);
    let ghost rv = rest.deep_view();
    proof {
        lemma_remove_all_len(pv, if pv.len() > 0 { pv[0] } else { Seq::empty() });
    }
    assert(rv.len() <= pv.len());
    let mut j: usize = 0;
    while j < rest.len()
        invariant
            j <= rest@.len(),
            rv == rest.deep_view(),
            rv.len() <= commit.parents@.len(),
            color1 <= *old(next_color) + 1,
            *old(next_color) + 1 + commit.parents@.len() <= usize::MAX,
            *next_color as int == color1 + j,
            node_col < lanes@.len(),
            (lanes_view(next_lanes@), edge_views(edges@), *next_color as int) == add_parents(
                next1,
                edges1,
                color1,
                node_col as int,
                rv,
                j as int,
            ),
        decreases rest@.len() - j,
    {
        assert(rv[j as int] == rest[j as int]@);
        match find_lane(&next_lanes, &rest[j]) {
            Some(target) => {
                // Already tracked: draw an edge from the node to that lane.
                let e = Edge { from_col: node_col, to_col: target, color_index: *next_color };
                proof {
                    lemma_edge_views_push(edges@, e);
                }
                edges.push(e);
            },
            None => {
                let color = *next_color;
                let new_col = next_lanes.len();
                proof {
                    lemma_lanes_view_push(next_lanes@, (rest@[j as int], color));
                    lemma_edge_views_push(
                        edges@,
                        Edge { from_col: node_col, to_col: new_col, color_index: color },
                    );
                }
                next_lanes.push((rest[j].clone(), color));
                edges.push(Edge { from_col: node_col, to_col: new_col, color_index: color });
            },
        }
        *next_color = *next_color + 1;
        j = j + 1;
    }

    let num_lanes = if lanes.len() >= next_lanes.len() {
        lanes.len()
    } else {
        next_lanes.len()
    };
    *lanes = next_lanes;
    GraphRow { node_col, num_lanes, edges, node_color_index }
}

/// Compute the graph layout for all commits.
///
/// The algorithm walks commits from top (newest) to bottom (oldest) and
/// maintains a set of active lanes. Each lane tracks the SHA it is waiting
/// to see next. When a commit arrives, it occupies the lane expecting it.
/// Its parents then replace or extend the lane set.
///
/// Returns one `GraphRow` per commit, in the same order as the input slice.
/// The count of commits and parent entries must fit in `usize` (the colors
/// handed out never exceed it).
pub fn compute_graph(commits: &[Commit]) -> (rows: Vec<GraphRow>)
    requires
        graph_size(commit_views(commits@), commits@.len() as int) <= usize::MAX,
    ensures
        rows@.len() == commits@.len(),
        row_views(rows@) == graph_rows(commit_views(commits@)),
        forall|i: int| 0 <= i < rows@.len() ==> row_well_formed(#[trigger] rows@[i]@),
{
    proof {
        lemma_graph_well_formed(commit_views(commits@));
    }
    let ghost cv = commit_views(commits@);
    let mut lanes: Vec<(String, usize)> = Vec::new();
    let mut next_color: usize = 0;
    let mut rows: Vec<GraphRow> = Vec::new();
    if commits.len() == 0 {
        assert(row_views(rows@) =~= graph_rows(cv));
        return rows;
    }
    let mut i: usize = 0;
    assert(lanes_view(lanes@) =~= Seq::<LaneView>::empty());
    assert(row_views(rows@) =~= Seq::<RowView>::empty());
    while i < commits.len()
        invariant
            i <= commits@.len(),
            cv == commit_views(commits@),
            cv.len() == commits@.len(),
            graph_size(cv, cv.len() as int) <= usize::MAX,
            layout(cv, i as int).0 == (LayoutState {
                lanes: lanes_view(lanes@),
                next_color: next_color as int,
            }),
            row_views(rows@) == layout(cv, i as int).1,
            rows@.len() == i,
            next_color <= graph_size(cv, i as int),
        decreases commits@.len() - i,
    {
        assert(cv[i as int] == commits@[i as int]@);
        proof {
            lemma_graph_size_mono(cv, i + 1, cv.len() as int);
        }
        let row = layout_commit(&commits[i], &mut lanes, &mut next_color);
        let ghost prev = rows@;
        rows.push(row);
        assert(row_views(rows@) =~= row_views(prev).push(row@));
        i = i + 1;
    }
    assert forall|k: int| 0 <= k < rows@.len() implies row_well_formed(#[trigger] rows@[k]@) by {
        assert(row_views(rows@)[k] == rows@[k]@);
    }
    rows
}

/// Whether the commits and their parent entries, counted together, fit in
/// `usize`: what [`compute_graph`] asks of its input.
pub fn graph_fits(commits: &[Commit]) -> (b: bool)
    ensures
        b == (graph_size(commit_views(commits@), commits@.len() as int) <= usize::MAX),
{
    let ghost cv = commit_views(commits@);
    let mut total: usize = 0;
    let mut i: usize = 0;
    while i < commits.len()
        invariant
            i <= commits@.len(),
            cv == commit_views(commits@),
            cv.len() == commits@.len(),
            total == graph_size(cv, i as int),
        decreases commits@.len() - i,
    {
        assert(cv[i as int] == commits@[i as int]@);
        let n = commits[i].parents.len();
        match total.checked_add(1) {
            Some(t) => match t.checked_add(n) {
                Some(u) => {
                    total = u;
                },
                None => {
                    proof {
                        lemma_graph_size_mono(cv, i + 1, cv.len() as int);
                    }
                    return false;
                },
            },
            None => {
                proof {
                    lemma_graph_size_mono(cv, i + 1, cv.len() as int);
                }
                return false;
            },
        }
        i = i + 1;
    }
    true
}


// ---------------------------------------------------------------------------
// Laws of the layout
// ---------------------------------------------------------------------------

/// A row whose node and edge ends all lie within its lanes.
pub open spec fn row_well_formed(r: RowView) -> bool {
    &&& 0 <= r.node_col < r.num_lanes
    &&& forall|j: int|
        0 <= j < r.edges.len() ==> 0 <= (#[trigger] r.edges[j]).0 < r.num_lanes && 0 <= r.edges[j].1
            < r.num_lanes
}

proof fn lemma_map_lanes_bounds(
    lanes: Seq<LaneView>,
    node_col: int,
    sha: Seq<char>,
    parents: Seq<Seq<char>>,
    k: int,
)
    requires
        0 <= k <= lanes.len(),
    ensures
        ({
            let (n, e) = map_lanes(lanes, node_col, sha, parents, k);
            &&& n.len() <= k
            &&& forall|j: int|
                0 <= j < e.len() ==> 0 <= (#[trigger] e[j]).0 < k && 0 <= e[j].1 < n.len()
        }),
    decreases k,
{
    if k > 0 {
        lemma_map_lanes_bounds(lanes, node_col, sha, parents, k - 1);
        let (next, edges) = map_lanes(lanes, node_col, sha, parents, k - 1);
        let target = if parents.len() > 0 {
            parents[0]
        } else {
            sha
        };
        lemma_first_lane_below(next, target, next.len() as int);
    }
}

proof fn lemma_add_parents_bounds(
    next: Seq<LaneView>,
    edges: Seq<EdgeView>,
    color: int,
    node_col: int,
    rest: Seq<Seq<char>>,
    k: int,
    b: int,
)
    requires
        0 <= k <= rest.len(),
        0 <= node_col < b,
        forall|j: int|
            0 <= j < edges.len() ==> 0 <= (#[trigger] edges[j]).0 < b && 0 <= edges[j].1 < next.len(),
    ensures
        ({
            let (n, e, c) = add_parents(next, edges, color, node_col, rest, k);
            &&& n.len() >= next.len()
            &&& c == color + k
            &&& forall|j: int| 0 <= j < e.len() ==> 0 <= (#[trigger] e[j]).0 < b && 0 <= e[j].1 < n.len()
        }),
    decreases k,
{
    if k > 0 {
        lemma_add_parents_bounds(next, edges, color, node_col, rest, k - 1, b);
        let (n, e, c) = add_parents(next, edges, color, node_col, rest, k - 1);
        lemma_first_lane_below(n, rest[k - 1], n.len() as int);
    }
}

/// Every row of a step is well formed: the node and both ends of every edge lie
/// within the row's lanes.
proof fn lemma_step_well_formed(st: LayoutState, c: CommitView)
    ensures
        row_well_formed(layout_step(st, c).0),
{
    let (node_col, node_color, st1) = place_node(st, c.full_sha);
    lemma_first_lane_below(st.lanes, c.full_sha, st.lanes.len() as int);
    let lanes = st1.lanes;
    assert(0 <= node_col < lanes.len());
    lemma_map_lanes_bounds(lanes, node_col, c.full_sha, c.parents, lanes.len() as int);
    let (next1, edges1) = map_lanes(lanes, node_col, c.full_sha, c.parents, lanes.len() as int);
    let rest = other_parents(c.parents);
    lemma_add_parents_bounds(
        next1,
        edges1,
        st1.next_color,
        node_col,
        rest,
        rest.len() as int,
        lanes.len() as int,
    );
}

/// The rows of the first `k` commits do not change as more commits follow.
pub proof fn lemma_layout_prefix(cs: Seq<CommitView>, k: int, m: int)
    requires
        0 <= k <= m,
    ensures
        layout(cs, m).1.len() == m,
        forall|i: int| 0 <= i < k ==> layout(cs, m).1[i] == layout(cs, k).1[i],
    decreases m,
{
    if m > 0 {
        if k < m {
            lemma_layout_prefix(cs, k, m - 1);
        } else {
            lemma_layout_prefix(cs, k - 1, m - 1);
        }
    }
}

/// The row of commit `i` is the step of commit `i` from the state after the
/// commits before it.
pub proof fn lemma_row_is_step(cs: Seq<CommitView>, i: int)
    requires
        0 <= i < cs.len(),
    ensures
        graph_rows(cs)[i] == layout_step(layout(cs, i).0, cs[i]).0,
{
    lemma_layout_prefix(cs, i + 1, cs.len() as int);
    lemma_layout_prefix(cs, i, i);
}

/// Law: the layout has one row per commit, and in every row the commit's node
/// and both ends of every edge lie within that row's lanes (so the graph column
/// is wide enough for everything drawn in it).
pub proof fn lemma_graph_well_formed(cs: Seq<CommitView>)
    ensures
        graph_rows(cs).len() == cs.len(),
        forall|i: int| 0 <= i < cs.len() ==> row_well_formed(#[trigger] graph_rows(cs)[i]),
{
    lemma_layout_prefix(cs, 0, cs.len() as int);
    assert forall|i: int| 0 <= i < cs.len() implies row_well_formed(#[trigger] graph_rows(cs)[i]) by {
        lemma_row_is_step(cs, i);
        lemma_step_well_formed(layout(cs, i).0, cs[i]);
    }
}

/// Every edge of a step ends within the lanes that the step hands on, and a
/// row has at least as many lanes as the step started with.
proof fn lemma_step_edges_into_next(st: LayoutState, c: CommitView)
    ensures
        forall|j: int|
            0 <= j < layout_step(st, c).0.edges.len() ==> (#[trigger] layout_step(st, c).0.edges[j]).1
                < layout_step(st, c).1.lanes.len(),
        layout_step(st, c).0.num_lanes >= st.lanes.len(),
{
    let (node_col, node_color, st1) = place_node(st, c.full_sha);
    lemma_first_lane_below(st.lanes, c.full_sha, st.lanes.len() as int);
    let lanes = st1.lanes;
    lemma_map_lanes_bounds(lanes, node_col, c.full_sha, c.parents, lanes.len() as int);
    let (next1, edges1) = map_lanes(lanes, node_col, c.full_sha, c.parents, lanes.len() as int);
    let rest = other_parents(c.parents);
    lemma_add_parents_bounds(
        next1,
        edges1,
        st1.next_color,
        node_col,
        rest,
        rest.len() as int,
        lanes.len() as int,
    );
}

/// Law: every edge of a row ends within the lanes of the next row, so each
/// line drawn toward the next row meets a lane there.
pub proof fn lemma_edges_reach_next_row(cs: Seq<CommitView>, i: int)
    requires
        0 <= i,
        i + 1 < cs.len(),
    ensures
        forall|j: int|
            0 <= j < graph_rows(cs)[i].edges.len() ==> 0 <= (#[trigger] graph_rows(cs)[i].edges[j]).1
                < graph_rows(cs)[i + 1].num_lanes,
{
    lemma_row_is_step(cs, i);
    lemma_row_is_step(cs, i + 1);
    lemma_graph_well_formed(cs);
    let st = layout(cs, i).0;
    lemma_step_edges_into_next(st, cs[i]);
    assert(layout(cs, i + 1).0 == layout_step(st, cs[i]).1);
    lemma_step_edges_into_next(layout(cs, i + 1).0, cs[i + 1]);
    assert(row_well_formed(graph_rows(cs)[i]));
}

/// Edge `j` leaves column `col` for a lane of `n` that waits for `p`.
pub open spec fn edge_to_parent(e: Seq<EdgeView>, n: Seq<LaneView>, col: int, p: Seq<char>, j: int) -> bool {
    &&& 0 <= j < e.len()
    &&& e[j].0 == col
    &&& 0 <= e[j].1 < n.len()
    &&& n[e[j].1].0 == p
}

/// Some edge leaves column `col` for a lane of `n` that waits for `p`.
pub open spec fn connected(e: Seq<EdgeView>, n: Seq<LaneView>, col: int, p: Seq<char>) -> bool {
    exists|j: int| edge_to_parent(e, n, col, p, j)
}

/// Mapping more lanes only appends lanes and edges.
proof fn lemma_map_lanes_extends(
    lanes: Seq<LaneView>,
    node_col: int,
    sha: Seq<char>,
    parents: Seq<Seq<char>>,
    k1: int,
    k2: int,
)
    requires
        0 <= k1 <= k2 <= lanes.len(),
    ensures
        ({
            let (n1, e1) = map_lanes(lanes, node_col, sha, parents, k1);
            let (n2, e2) = map_lanes(lanes, node_col, sha, parents, k2);
            &&& n1.len() <= n2.len()
            &&& e1.len() <= e2.len()
            &&& forall|t: int| 0 <= t < n1.len() ==> n2[t] == n1[t]
            &&& forall|j: int| 0 <= j < e1.len() ==> e2[j] == e1[j]
        }),
    decreases k2 - k1,
{
    if k2 > k1 {
        lemma_map_lanes_extends(lanes, node_col, sha, parents, k1, k2 - 1);
    }
}

/// The node's own lane goes on to the first parent, with an edge from the node.
proof fn lemma_map_lanes_first_parent(
    lanes: Seq<LaneView>,
    node_col: int,
    sha: Seq<char>,
    parents: Seq<Seq<char>>,
    k: int,
)
    requires
        parents.len() > 0,
        0 <= node_col < k <= lanes.len(),
    ensures
        ({
            let (n, e) = map_lanes(lanes, node_col, sha, parents, k);
            connected(e, n, node_col, parents[0])
        }),
{
    let (n0, e0) = map_lanes(lanes, node_col, sha, parents, node_col);
    let (n1, e1) = map_lanes(lanes, node_col, sha, parents, node_col + 1);
    assert(edge_to_parent(e1, n1, node_col, parents[0], e0.len() as int));
    lemma_map_lanes_extends(lanes, node_col, sha, parents, node_col + 1, k);
    let (n, e) = map_lanes(lanes, node_col, sha, parents, k);
    assert(edge_to_parent(e, n, node_col, parents[0], e0.len() as int));
}

/// Adding the other parents only appends lanes and edges, and each of the
/// first `k` gets an edge from the node to a lane that waits for it.
proof fn lemma_add_parents_connects(
    next: Seq<LaneView>,
    edges: Seq<EdgeView>,
    color: int,
    node_col: int,
    rest: Seq<Seq<char>>,
    k: int,
)
    requires
        0 <= k <= rest.len(),
    ensures
        ({
            let (n, e, c) = add_parents(next, edges, color, node_col, rest, k);
            &&& next.len() <= n.len()
            &&& edges.len() <= e.len()
            &&& forall|t: int| 0 <= t < next.len() ==> n[t] == next[t]
            &&& forall|j: int| 0 <= j < edges.len() ==> e[j] == edges[j]
            &&& forall|m: int| 0 <= m < k ==> connected(e, n, node_col, #[trigger] rest[m])
        }),
    decreases k,
{
    if k > 0 {
        lemma_add_parents_connects(next, edges, color, node_col, rest, k - 1);
        let (n0, e0, c0) = add_parents(next, edges, color, node_col, rest, k - 1);
        let (n, e, c) = add_parents(next, edges, color, node_col, rest, k);
        let p = rest[k - 1];
        lemma_first_lane_below(n0, p, n0.len() as int);
        assert(n.len() >= n0.len() && e.len() == e0.len() + 1);
        assert forall|t: int| 0 <= t < n0.len() implies n[t] == n0[t] by {}
        assert forall|j: int| 0 <= j < e0.len() implies e[j] == e0[j] by {}
        assert forall|t: int| 0 <= t < next.len() implies n[t] == next[t] by {
            assert(n[t] == n0[t]);
        }
        assert forall|j: int| 0 <= j < edges.len() implies e[j] == edges[j] by {
            assert(e[j] == e0[j]);
        }
        assert forall|m: int| 0 <= m < k implies connected(e, n, node_col, #[trigger] rest[m]) by {
            if m < k - 1 {
                assert(connected(e0, n0, node_col, rest[m]));
                let j = choose|j: int| edge_to_parent(e0, n0, node_col, rest[m], j);
                assert(edge_to_parent(e, n, node_col, rest[m], j));
            } else {
                assert(edge_to_parent(e, n, node_col, rest[m], e0.len() as int));
            }
        }
    }
}

/// Every item other than `x` stays.
proof fn lemma_remove_all_keeps(ps: Seq<Seq<char>>, x: Seq<char>)
    ensures
        forall|j: int| 0 <= j < ps.len() && ps[j] != x ==> remove_all(ps, x).contains(#[trigger] ps[j]),
    decreases ps.len(),
{
    if ps.len() > 0 {
        lemma_remove_all_keeps(ps.drop_last(), x);
        let r = remove_all(ps.drop_last(), x);
        let w = remove_all(ps, x);
        assert forall|j: int| 0 <= j < ps.len() && ps[j] != x implies w.contains(#[trigger] ps[j]) by {
            if j < ps.len() - 1 {
                assert(ps.drop_last()[j] == ps[j]);
                let m = choose|m: int| 0 <= m < r.len() && r[m] == ps.drop_last()[j];
                assert(w[m] == r[m]);
            } else {
                assert(w[w.len() - 1] == ps.last());
            }
        }
    }
}

/// In one step every parent of the commit gets an edge from its node to a lane
/// of the next state that waits for that parent.
proof fn lemma_step_connects_parents(st: LayoutState, c: CommitView)
    ensures
        forall|m: int|
            0 <= m < c.parents.len() ==> connected(
                layout_step(st, c).0.edges,
                layout_step(st, c).1.lanes,
                layout_step(st, c).0.node_col,
                #[trigger] c.parents[m],
            ),
{
    let (node_col, node_color, st1) = place_node(st, c.full_sha);
    lemma_first_lane_below(st.lanes, c.full_sha, st.lanes.len() as int);
    let lanes = st1.lanes;
    let (next1, edges1) = map_lanes(lanes, node_col, c.full_sha, c.parents, lanes.len() as int);
    let rest = other_parents(c.parents);
    lemma_add_parents_connects(next1, edges1, st1.next_color, node_col, rest, rest.len() as int);
    let (n, e, col) = add_parents(next1, edges1, st1.next_color, node_col, rest, rest.len() as int);
    let r = layout_step(st, c);
    assert(r.0.edges == e);
    assert(r.1.lanes == n);
    assert(r.0.node_col == node_col);
    if c.parents.len() > 0 {
        lemma_map_lanes_first_parent(lanes, node_col, c.full_sha, c.parents, lanes.len() as int);
        lemma_remove_all_keeps(c.parents, c.parents[0]);
    }
    assert forall|m: int| 0 <= m < c.parents.len() implies connected(
        r.0.edges,
        r.1.lanes,
        r.0.node_col,
        #[trigger] c.parents[m],
    ) by {
        if c.parents[m] == c.parents[0] {
            assert(connected(edges1, next1, node_col, c.parents[0]));
            let j = choose|j: int| edge_to_parent(edges1, next1, node_col, c.parents[0], j);
            assert(e[j] == edges1[j]);
            assert(n[edges1[j].1] == next1[edges1[j].1]);
            assert(edge_to_parent(r.0.edges, r.1.lanes, r.0.node_col, c.parents[m], j));
        } else {
            assert(rest.contains(c.parents[m]));
            let q = choose|q: int| 0 <= q < rest.len() && rest[q] == c.parents[m];
            assert(connected(e, n, node_col, rest[q]));
            let j = choose|j: int| edge_to_parent(e, n, node_col, rest[q], j);
            assert(edge_to_parent(r.0.edges, r.1.lanes, r.0.node_col, c.parents[m], j));
        }
    }
}

/// Law: every parent of a commit, including one that another lane already
/// waits for, is connected to the commit's node: some edge of its row leaves
/// the node's column for a lane that, after the row, waits for that parent.
pub proof fn lemma_every_parent_connected(cs: Seq<CommitView>, i: int)
    requires
        0 <= i < cs.len(),
    ensures
        forall|m: int|
            0 <= m < cs[i].parents.len() ==> exists|j: int|
                0 <= j < graph_rows(cs)[i].edges.len() && graph_rows(cs)[i].edges[j].0 == graph_rows(
                    cs,
                )[i].node_col && 0 <= graph_rows(cs)[i].edges[j].1 < layout(cs, i + 1).0.lanes.len()
                    && layout(cs, i + 1).0.lanes[graph_rows(cs)[i].edges[j].1].0
                    == #[trigger] cs[i].parents[m],
{
    lemma_row_is_step(cs, i);
    let st = layout(cs, i).0;
    lemma_step_connects_parents(st, cs[i]);
    assert(layout(cs, i + 1).0 == layout_step(st, cs[i]).1);
    let row = graph_rows(cs)[i];
    let lanes = layout(cs, i + 1).0.lanes;
    assert forall|m: int| 0 <= m < cs[i].parents.len() implies exists|j: int|
        0 <= j < row.edges.len() && row.edges[j].0 == row.node_col && 0 <= row.edges[j].1 < lanes.len()
            && lanes[row.edges[j].1].0 == #[trigger] cs[i].parents[m] by {
        assert(connected(row.edges, lanes, row.node_col, cs[i].parents[m]));
        let j = choose|j: int| edge_to_parent(row.edges, lanes, row.node_col, cs[i].parents[m], j);
        assert(edge_to_parent(row.edges, lanes, row.node_col, cs[i].parents[m], j));
    }
}

/// A linear history: every commit's only parent is the commit that follows it.
pub open spec fn is_linear(cs: Seq<CommitView>) -> bool {
    forall|i: int| 0 <= i < cs.len() - 1 ==> (#[trigger] cs[i]).parents == seq![cs[i + 1].full_sha]
}

proof fn lemma_linear_state(cs: Seq<CommitView>, k: int)
    requires
        is_linear(cs),
        1 <= k < cs.len(),
    ensures
        layout(cs, k).0.lanes == seq![(cs[k].full_sha, 0int)],
    decreases k,
{
    let st = layout(cs, k - 1).0;
    let c = cs[k - 1];
    assert(c.parents == seq![cs[k].full_sha]);
    if k == 1 {
        assert(st.lanes.len() == 0);
        assert(st.next_color == 0);
    } else {
        lemma_linear_state(cs, k - 1);
    }
    assert(first_lane_below(st.lanes, c.full_sha, 0) is None);
    let (node_col, node_color, st1) = place_node(st, c.full_sha);
    assert(st1.lanes =~= seq![(c.full_sha, 0int)]);
    assert(node_col == 0);
    assert(first_lane_below(st1.lanes, c.full_sha, 0) is None);
    let m0 = map_lanes(st1.lanes, node_col, c.full_sha, c.parents, 0);
    assert(m0.0.len() == 0);
    let (next1, edges1) = map_lanes(st1.lanes, node_col, c.full_sha, c.parents, 1);
    assert(next1 =~= seq![(cs[k].full_sha, 0int)]);
    let rest = other_parents(c.parents);
    assert(c.parents.drop_last() =~= Seq::<Seq<char>>::empty());
    assert(remove_all(c.parents.drop_last(), c.parents[0]).len() == 0);
    assert(rest.len() == 0);
}

/// Law: in a linear history every commit sits in the first column.
pub proof fn lemma_linear_history_one_column(cs: Seq<CommitView>)
    requires
        is_linear(cs),
    ensures
        forall|i: int| 0 <= i < cs.len() ==> (#[trigger] graph_rows(cs)[i]).node_col == 0,
{
    assert forall|i: int| 0 <= i < cs.len() implies (#[trigger] graph_rows(cs)[i]).node_col == 0 by {
        lemma_row_is_step(cs, i);
        if i == 0 {
            assert(layout(cs, 0).0.lanes.len() == 0);
        } else {
            lemma_linear_state(cs, i);
            let lanes = layout(cs, i).0.lanes;
            assert(lanes[0].0 == cs[i].full_sha);
            assert(first_lane_below(lanes, cs[i].full_sha, 0) is None);
            assert(first_lane_below(lanes, cs[i].full_sha, 1) == Some(0int));
        }
    }
}

/// Law: the first commit always starts the first lane, with the first color.
pub proof fn lemma_first_row(cs: Seq<CommitView>)
    requires
        cs.len() > 0,
    ensures
        graph_rows(cs)[0].node_col == 0,
        graph_rows(cs)[0].node_color == 0,
{
    lemma_row_is_step(cs, 0);
}

/// Law: a commit with no parents that no other lane waits for ends its lane:
/// no edge leaves its node's column, and every other lane passes straight on.
pub proof fn lemma_root_commit_ends_lane(cs: Seq<CommitView>, i: int)
    requires
        0 <= i < cs.len(),
        cs[i].parents.len() == 0,
        forall|j: int|
            0 <= j < layout(cs, i).0.lanes.len() ==> layout(cs, i).0.lanes[j].0 != cs[i].full_sha,
    ensures
        graph_rows(cs)[i].node_col == layout(cs, i).0.lanes.len(),
        graph_rows(cs)[i].edges.len() == layout(cs, i).0.lanes.len(),
        forall|j: int|
            0 <= j < graph_rows(cs)[i].edges.len() ==> (#[trigger] graph_rows(cs)[i].edges[j]).0 == j
                && graph_rows(cs)[i].edges[j].1 == j,
{
    lemma_row_is_step(cs, i);
    let st = layout(cs, i).0;
    let c = cs[i];
    lemma_first_lane_below(st.lanes, c.full_sha, st.lanes.len() as int);
    let (node_col, node_color, st1) = place_node(st, c.full_sha);
    let n = st.lanes.len() as int;
    assert(node_col == n);
    lemma_map_lanes_pass(st1.lanes, node_col, c.full_sha, c.parents, n);
    let (next1, edges1) = map_lanes(st1.lanes, node_col, c.full_sha, c.parents, n + 1);
    assert(map_lanes(st1.lanes, node_col, c.full_sha, c.parents, n + 1) == map_lanes(
        st1.lanes,
        node_col,
        c.full_sha,
        c.parents,
        n,
    ));
    assert(other_parents(c.parents).len() == 0);
}

proof fn lemma_map_lanes_pass(
    lanes: Seq<LaneView>,
    node_col: int,
    sha: Seq<char>,
    parents: Seq<Seq<char>>,
    k: int,
)
    requires
        0 <= k <= node_col,
        node_col <= lanes.len(),
        forall|j: int| 0 <= j < node_col ==> lanes[j].0 != sha,
    ensures
        ({
            let (next, edges) = map_lanes(lanes, node_col, sha, parents, k);
            &&& next.len() == k
            &&& edges.len() == k
            &&& forall|j: int| 0 <= j < k ==> (#[trigger] edges[j]).0 == j && edges[j].1 == j
        }),
    decreases k,
{
    if k > 0 {
        lemma_map_lanes_pass(lanes, node_col, sha, parents, k - 1);
    }
}


// ---------------------------------------------------------------------------
// Lane colors
// ---------------------------------------------------------------------------

/// An RGB color.
#[derive(Debug, Clone, Copy, PartialEq, Eq, Structural)]
pub struct LaneColor {
    pub r: u8,
    pub g: u8,
    pub b: u8,
}

/// The color of lane color index `i`: the palette repeats every
/// [`NUM_LANE_COLORS`] indices.
pub open spec fn lane_rgb(i: nat) -> (u8, u8, u8) {
    let k = i % 8;
    if k == 0 {
        (120, 180, 255)  // blue
    } else if k == 1 {
        (255, 140, 100)  // orange
    } else if k == 2 {
        (100, 220, 120)  // green
    } else if k == 3 {
        (220, 130, 220)  // purple
    } else if k == 4 {
        (255, 220, 80)  // yellow
    } else if k == 5 {
        (100, 220, 220)  // cyan
    } else if k == 6 {
        (255, 100, 150)  // pink
    } else {
        (180, 200, 140)  // lime
    }
}

/// Returns the color for a given lane color index.
pub fn lane_color(index: usize) -> (c: LaneColor)
    ensures
        (c.r, c.g, c.b) == lane_rgb(index as nat),
{
    match index % NUM_LANE_COLORS {
        0 => LaneColor { r: 120, g: 180, b: 255 },
        1 => LaneColor { r: 255, g: 140, b: 100 },
        2 => LaneColor { r: 100, g: 220, b: 120 },
        3 => LaneColor { r: 220, g: 130, b: 220 },
        4 => LaneColor { r: 255, g: 220, b: 80 },
        5 => LaneColor { r: 100, g: 220, b: 220 },
        6 => LaneColor { r: 255, g: 100, b: 150 },
        _ => LaneColor { r: 180, g: 200, b: 140 },
    }
}

/// The widest row of the layout, at least one lane.
pub open spec fn max_lanes_below(rows: Seq<GraphRow>, k: int) -> int
    decreases k,
{
    if k <= 0 {
        1
    } else {
        let m = max_lanes_below(rows, k - 1);
        if rows[k - 1].num_lanes > m {
            rows[k - 1].num_lanes as int
        } else {
            m
        }
    }
}

/// The maximum number of active lanes over all rows (at least 1): what the
/// graph column's width is sized for.
pub fn max_lanes(rows: &[GraphRow]) -> (m: usize)
    ensures
        m == max_lanes_below(rows@, rows@.len() as int),
        m >= 1,
        forall|i: int| 0 <= i < rows@.len() ==> (#[trigger] rows@[i]).num_lanes <= m,
{
    let mut m: usize = 1;
    let mut k: usize = 0;
    while k < rows.len()
        invariant
            k <= rows@.len(),
            m == max_lanes_below(rows@, k as int),
            m >= 1,
            forall|i: int| 0 <= i < k ==> (#[trigger] rows@[i]).num_lanes <= m,
        decreases rows@.len() - k,
    {
        if rows[k].num_lanes > m {
            m = rows[k].num_lanes;
        }
        k = k + 1;
    }
    m
}

} // verus!
