use vstd::multiset::Multiset;
use vstd::prelude::*;
use vstd::set_lib::{lemma_int_range, lemma_len_subset, set_int_range};
use crate::frontier::{frontier_items, frontier_new, frontier_pop, frontier_push, frontier_top};
use crate::funnel::{is_inner_vertex, lemma_funnel_len, lemma_funnel_vertices, refine_path, refined};
use crate::geometry::{distance, distance_spec, Point};

verus! {

/// A directed link from a cell to a neighbouring cell, through the portal
/// `vertices` (left endpoint first, as seen from the owning cell).
#[derive(Clone, Copy, Debug)]
pub struct Edge {
    pub vertices: [Point; 2],
    pub neighbor: u32,
}

/// A convex cell of the mesh: a representative center and its outgoing edges.
#[derive(Clone, Debug)]
pub struct Node {
    pub center: Point,
    pub edges: Vec<Edge>,
}


/// A navigation mesh: a flat array of cells, which refer to each other by index.
#[derive(Clone)]
pub struct NavMesh {
    nodes: Vec<Node>,
}

impl View for NavMesh {
    type V = Seq<Node>;

    closed spec fn view(&self) -> Seq<Node> {
        self.nodes@
    }
}

/// The edge that `step` names: edge `step.1` of cell `step.0`.
pub open spec fn edge_at(m: Seq<Node>, step: (u32, u32)) -> Edge {
    m[step.0 as int].edges@[step.1 as int]
}

/// `step` names an existing edge of `m`.
pub open spec fn valid_step(m: Seq<Node>, step: (u32, u32)) -> bool {
    step.0 < m.len() && step.1 < m[step.0 as int].edges@.len()
}

/// `steps` is a walk along the edges of `m` from cell `from` to cell `to`.
pub open spec fn is_walk(m: Seq<Node>, steps: Seq<(u32, u32)>, from: u32, to: u32) -> bool
    decreases steps.len(),
{
    if steps.len() == 0 {
        from == to
    } else {
        valid_step(m, steps[0]) && steps[0].0 == from && is_walk(
            m,
            steps.drop_first(),
            edge_at(m, steps[0]).neighbor,
            to,
        )
    }
}

/// The `k`-th cell that the walk `steps` to `to` passes: the source of each
/// step, then `to`.
pub open spec fn walk_cell(steps: Seq<(u32, u32)>, to: u32, k: int) -> u32 {
    if k < steps.len() {
        steps[k].0
    } else {
        to
    }
}

/// The walk `steps` to `to` passes no cell twice.
pub open spec fn is_simple(steps: Seq<(u32, u32)>, to: u32) -> bool {
    forall|a: int, b: int|
        0 <= a < b <= steps.len() ==> walk_cell(steps, to, a) != walk_cell(steps, to, b)
}

/// Cell `to` can be reached from cell `from` along the edges of `m`.
pub open spec fn reachable(m: Seq<Node>, from: u32, to: u32) -> bool {
    exists|steps: Seq<(u32, u32)>| is_walk(m, steps, from, to)
}

/// The channel of a walk: the portal of each step, then the degenerate portal
/// at the goal.
pub open spec fn channel_of(m: Seq<Node>, steps: Seq<(u32, u32)>) -> Seq<[Point; 2]> {
    Seq::new(steps.len(), |k: int| edge_at(m, steps[k]).vertices)
}

/// `ch` is the channel of `steps` followed by the degenerate portal at `goal`.
pub open spec fn is_channel(m: Seq<Node>, steps: Seq<(u32, u32)>, goal: Point, ch: Seq<[Point; 2]>) -> bool {
    &&& ch.len() == steps.len() + 1
    &&& ch.drop_last() == channel_of(m, steps)
    &&& ch.last()[0] == goal
    &&& ch.last()[1] == goal
}

/// Cost of crossing edge `e` of cell `c`: the distance between the centers.
pub open spec fn edge_cost_spec(m: Seq<Node>, c: int, e: int) -> nat {
    distance_spec(m[c].center, m[m[c].edges@[e].neighbor as int].center)
}

/// Distance from `goal` to the nearer endpoint of a portal.
pub open spec fn portal_distance(e: Edge, goal: Point) -> nat {
    let d0 = distance_spec(e.vertices[0], goal);
    let d1 = distance_spec(e.vertices[1], goal);
    if d0 <= d1 { d0 } else { d1 }
}

/// Least `portal_distance` over `edges`; `u64::MAX` when there is no edge.
pub open spec fn nearest_portal(edges: Seq<Edge>, goal: Point) -> nat
    decreases edges.len(),
{
    if edges.len() == 0 {
        u64::MAX as nat
    } else {
        let rest = nearest_portal(edges.drop_last(), goal);
        let d = portal_distance(edges.last(), goal);
        if d <= rest { d } else { rest }
    }
}


/// The search's tables: the best known cost of each cell, each cell's back
/// pointer (the cell and edge it was last reached through), and the frontier
/// of (key, cell) pairs, where a key is `u64::MAX` less the cell's priority.
pub type SearchState = (Seq<Option<u64>>, Seq<Option<(u32, u32)>>, Multiset<(u64, u32)>);

/// `a` cut down to `u64::MAX`.
pub open spec fn saturate(a: int) -> u64 {
    if a > u64::MAX { u64::MAX } else { a as u64 }
}

/// The tables before the search: only `start` has a cost, zero, and it alone
/// is queued, with the greatest key.
pub open spec fn search_init(n: nat, start: u32) -> SearchState {
    (
        Seq::new(n, |v: int| if v == start { Some(0u64) } else { None }),
        Seq::new(n, |v: int| None),
        Multiset::empty().insert((u64::MAX, start)),
    )
}

/// `(key, cell)` may be popped next: it is queued, and no queued key is greater.
pub open spec fn is_pop(items: Multiset<(u64, u32)>, key: u64, cell: u32) -> bool {
    &&& items.count((key, cell)) > 0
    &&& forall|q: (u64, u32)| #[trigger] items.count(q) > 0 ==> q.0 <= key
}

/// Relaxes edge `e` of cell `cur`, popped with key `key`: when the cost
/// through `cur` beats the neighbour's known cost, the neighbour takes it,
/// points back to `cur`, and is queued by its cost plus its heuristic, but
/// never with a key above `key`.
pub open spec fn relax_edge(m: Seq<Node>, goal: Point, cur: int, key: u64, s: SearchState, e: int) -> SearchState {
    let next = m[cur].edges@[e].neighbor;
    let nc = saturate(s.0[cur]->0 + edge_cost_spec(m, cur, e));
    let improves = match s.0[next as int] {
        Some(c) => nc < c,
        None => true,
    };
    if improves {
        let f = saturate(nc + nearest_portal(m[next as int].edges@, goal));
        let k = if u64::MAX - f <= key { (u64::MAX - f) as u64 } else { key };
        (
            s.0.update(next as int, Some(nc)),
            s.1.update(next as int, Some((cur as u32, e as u32))),
            s.2.insert((k, next)),
        )
    } else {
        s
    }
}

/// Relaxes the first `count` edges of cell `cur`, in order.
pub open spec fn relax_edges(m: Seq<Node>, goal: Point, cur: int, key: u64, s: SearchState, count: int) -> SearchState
    decreases count,
{
    if count <= 0 {
        s
    } else {
        relax_edge(m, goal, cur, key, relax_edges(m, goal, cur, key, s, count - 1), count - 1)
    }
}

/// One step of the search: `(key, cur)` leaves the frontier and every edge of
/// `cur` is relaxed.
pub open spec fn expand(m: Seq<Node>, goal: Point, s: SearchState, key: u64, cur: u32) -> SearchState {
    relax_edges(m, goal, cur as int, key, (s.0, s.1, s.2.remove((key, cur))), m[cur as int].edges@.len() as int)
}

/// Step `k` of `trace` pops `pops[k]`, a cell other than the goal, and expands it.
pub open spec fn step_ok(
    m: Seq<Node>,
    goal_node: u32,
    goal: Point,
    trace: Seq<SearchState>,
    pops: Seq<(u64, u32)>,
    k: int,
) -> bool {
    &&& is_pop(trace[k].2, pops[k].0, pops[k].1)
    &&& pops[k].1 != goal_node
    &&& trace[k + 1] == expand(m, goal, trace[k], pops[k].0, pops[k].1)
}

/// `trace` is a finished run of the search from `start` towards `goal_node`:
/// it begins with the initial tables, each step expands a cell of greatest
/// key (ties in any order), and it stops when the frontier is empty or its
/// next pop is the goal.
pub open spec fn is_search(
    m: Seq<Node>,
    start: u32,
    goal_node: u32,
    goal: Point,
    trace: Seq<SearchState>,
    pops: Seq<(u64, u32)>,
) -> bool {
    &&& trace.len() == pops.len() + 1
    &&& trace[0] == search_init(m.len(), start)
    &&& forall|k: int| 0 <= k < pops.len() ==> #[trigger] step_ok(m, goal_node, goal, trace, pops, k)
    &&& (trace.last().2.len() == 0 || exists|key: u64| is_pop(trace.last().2, key, goal_node))
}

/// `steps` follows the back pointers `came` from `to`: each step is the back
/// pointer of the cell it leads to.
pub open spec fn follows_back_pointers(came: Seq<Option<(u32, u32)>>, steps: Seq<(u32, u32)>, to: u32) -> bool {
    forall|k: int|
        0 <= k < steps.len() ==> came[walk_cell(steps, to, k + 1) as int] == Some(#[trigger] steps[k])
}

/// The search is fixed by the order of its pops: two runs that pop the same
/// cells with the same keys pass through the same tables.
pub proof fn lemma_search_determined(
    m: Seq<Node>,
    start: u32,
    goal_node: u32,
    goal: Point,
    t1: Seq<SearchState>,
    t2: Seq<SearchState>,
    pops: Seq<(u64, u32)>,
)
    requires
        is_search(m, start, goal_node, goal, t1, pops),
        is_search(m, start, goal_node, goal, t2, pops),
    ensures
        t1 == t2,
{
    assert forall|k: int| 0 <= k < t1.len() implies t1[k] == t2[k] by {
        lemma_search_prefix(m, start, goal_node, goal, t1, t2, pops, k);
    }
    assert(t1 =~= t2);
}

proof fn lemma_search_prefix(
    m: Seq<Node>,
    start: u32,
    goal_node: u32,
    goal: Point,
    t1: Seq<SearchState>,
    t2: Seq<SearchState>,
    pops: Seq<(u64, u32)>,
    k: int,
)
    requires
        is_search(m, start, goal_node, goal, t1, pops),
        is_search(m, start, goal_node, goal, t2, pops),
        0 <= k < t1.len(),
    ensures
        t1[k] == t2[k],
    decreases k,
{
    if k > 0 {
        lemma_search_prefix(m, start, goal_node, goal, t1, t2, pops, k - 1);
        assert(step_ok(m, goal_node, goal, t1, pops, k - 1));
        assert(step_ok(m, goal_node, goal, t2, pops, k - 1));
    }
}

/// There is one simple walk from `from` to `to` that follows given back
/// pointers.
pub proof fn lemma_back_pointer_walk_unique(
    m: Seq<Node>,
    came: Seq<Option<(u32, u32)>>,
    s1: Seq<(u32, u32)>,
    s2: Seq<(u32, u32)>,
    from: u32,
    to: u32,
)
    requires
        is_walk(m, s1, from, to),
        is_walk(m, s2, from, to),
        is_simple(s1, to),
        is_simple(s2, to),
        follows_back_pointers(came, s1, to),
        follows_back_pointers(came, s2, to),
    ensures
        s1 == s2,
{
    if s1.len() <= s2.len() {
        lemma_back_pointer_walk_unique_le(m, came, s1, s2, from, to);
    } else {
        lemma_back_pointer_walk_unique_le(m, came, s2, s1, from, to);
    }
}

proof fn lemma_back_pointer_walk_unique_le(
    m: Seq<Node>,
    came: Seq<Option<(u32, u32)>>,
    s1: Seq<(u32, u32)>,
    s2: Seq<(u32, u32)>,
    from: u32,
    to: u32,
)
    requires
        is_walk(m, s1, from, to),
        is_walk(m, s2, from, to),
        is_simple(s2, to),
        follows_back_pointers(came, s1, to),
        follows_back_pointers(came, s2, to),
        s1.len() <= s2.len(),
    ensures
        s1 == s2,
{
    let l1 = s1.len() as int;
    let l2 = s2.len() as int;
    lemma_back_pointer_tail(came, s1, s2, to, l1);
    assert(walk_cell(s1, to, 0) == from);
    assert(walk_cell(s2, to, 0) == from);
    assert(walk_cell(s2, to, l2 - l1) == from);
    assert(l2 == l1);
    assert forall|k: int| 0 <= k < l1 implies s1[k] == s2[k] by {
        assert(walk_cell(s1, to, k + 1) == walk_cell(s2, to, k + 1)) by {
            lemma_back_pointer_tail(came, s1, s2, to, l1 - k - 1);
        }
        assert(came[walk_cell(s1, to, k + 1) as int] == Some(s1[k]));
        assert(came[walk_cell(s2, to, k + 1) as int] == Some(s2[k]));
    }
    assert(s1 =~= s2);
}

proof fn lemma_back_pointer_tail(
    came: Seq<Option<(u32, u32)>>,
    s1: Seq<(u32, u32)>,
    s2: Seq<(u32, u32)>,
    to: u32,
    j: int,
)
    requires
        follows_back_pointers(came, s1, to),
        follows_back_pointers(came, s2, to),
        s1.len() <= s2.len(),
        0 <= j <= s1.len(),
    ensures
        walk_cell(s1, to, s1.len() - j) == walk_cell(s2, to, s2.len() - j),
    decreases j,
{
    if j > 0 {
        lemma_back_pointer_tail(came, s1, s2, to, j - 1);
        let a = s1.len() - j;
        let b = s2.len() - j;
        assert(came[walk_cell(s1, to, a + 1) as int] == Some(s1[a]));
        assert(came[walk_cell(s2, to, b + 1) as int] == Some(s2[b]));
    }
}

/// What `plan` returns for a finished search `trace` that popped `pops`.
pub open spec fn planned_by(
    m: Seq<Node>,
    start_node: u32,
    start: Point,
    goal_node: u32,
    goal: Point,
    trace: Seq<SearchState>,
    pops: Seq<(u64, u32)>,
    steps: Seq<(u32, u32)>,
    ch: Seq<[Point; 2]>,
    path: Seq<Point>,
) -> bool {
    &&& is_search(m, start_node, goal_node, goal, trace, pops)
    &&& follows_back_pointers(trace.last().1, steps, goal_node)
    &&& is_walk(m, steps, start_node, goal_node)
    &&& is_simple(steps, goal_node)
    &&& is_channel(m, steps, goal, ch)
    &&& path == refined(start, ch)
}

/// Planning is repeatable up to the frontier's order among equal keys: two
/// plans on the same mesh and query whose searches pop the same cells in the
/// same order return the same path.
pub proof fn lemma_plan_determined(
    m: Seq<Node>,
    start_node: u32,
    start: Point,
    goal_node: u32,
    goal: Point,
    trace1: Seq<SearchState>,
    trace2: Seq<SearchState>,
    pops: Seq<(u64, u32)>,
    steps1: Seq<(u32, u32)>,
    steps2: Seq<(u32, u32)>,
    ch1: Seq<[Point; 2]>,
    ch2: Seq<[Point; 2]>,
    path1: Seq<Point>,
    path2: Seq<Point>,
)
    requires
        planned_by(m, start_node, start, goal_node, goal, trace1, pops, steps1, ch1, path1),
        planned_by(m, start_node, start, goal_node, goal, trace2, pops, steps2, ch2, path2),
    ensures
        path1 == path2,
{
    lemma_search_determined(m, start_node, goal_node, goal, trace1, trace2, pops);
    lemma_back_pointer_walk_unique(m, trace1.last().1, steps1, steps2, start_node, goal_node);
    assert forall|k: int| 0 <= k < ch1.len() implies ch1[k] == ch2[k] by {
        if k < ch1.len() - 1 {
            assert(ch1[k] == ch1.drop_last()[k]);
            assert(ch2[k] == ch2.drop_last()[k]);
        } else {
            assert(ch1[k]@ =~= ch2[k]@);
            assert(ch1[k] == ch2[k]);
        }
    }
    assert(ch1 =~= ch2);
}

/// Weight of a cost entry in the search's termination measure: an unknown cost
/// weighs more than any known one.
spec fn weight(c: Option<u64>) -> nat {
    match c {
        Some(v) => v as nat,
        None => 0x1_0000_0000_0000_0000,
    }
}

spec fn total_weight(s: Seq<Option<u64>>) -> nat
    decreases s.len(),
{
    if s.len() == 0 {
        0
    } else {
        total_weight(s.drop_last()) + weight(s.last())
    }
}

proof fn lemma_total_weight_update(s: Seq<Option<u64>>, i: int, v: Option<u64>)
    requires
        0 <= i < s.len(),
    ensures
        total_weight(s.update(i, v)) == total_weight(s) - weight(s[i]) + weight(v),
    decreases s.len(),
{
    if i == s.len() - 1 {
        assert(s.update(i, v).drop_last() =~= s.drop_last());
    } else {
        lemma_total_weight_update(s.drop_last(), i, v);
        assert(s.update(i, v).drop_last() =~= s.drop_last().update(i, v));
    }
}

/// Cell `p` comes before cell `v` in the search: a lower known cost, or the
/// same cost reached earlier.
spec fn precedes(cost: Seq<Option<u64>>, stamp: Seq<nat>, p: int, v: int) -> bool {
    &&& cost[p] is Some
    &&& cost[v] is Some
    &&& (cost[p]->0 < cost[v]->0 || (cost[p]->0 == cost[v]->0 && stamp[p] < stamp[v]))
}

/// The cell that a back pointer names.
spec fn pred_cell(b: Option<(u32, u32)>) -> int {
    match b {
        Some((c, _)) => c as int,
        None => 0,
    }
}

/// The back pointer of `v` names an edge into `v` from a cell that precedes it.
spec fn has_pred(
    m: Seq<Node>,
    cost: Seq<Option<u64>>,
    came: Seq<Option<(u32, u32)>>,
    stamp: Seq<nat>,
    v: int,
) -> bool {
    &&& came[v] is Some
    &&& valid_step(m, came[v]->0)
    &&& edge_at(m, came[v]->0).neighbor == v
    &&& precedes(cost, stamp, pred_cell(came[v]), v)
}

/// Every edge of cell `u` leads to a cell of known cost.
spec fn closed(m: Seq<Node>, cost: Seq<Option<u64>>, u: int) -> bool {
    forall|e: int|
        0 <= e < m[u].edges@.len() ==> (#[trigger] cost[m[u].edges@[e].neighbor as int]) is Some
}

/// Cell `u` waits in the frontier.
spec fn queued(items: Multiset<(u64, u32)>, u: int) -> bool {
    exists|k: u64| #[trigger] items.count((k, u as u32)) > 0
}

/// What holds of the search's tables between steps.
spec fn tables_ok(
    m: Seq<Node>,
    start: int,
    cost: Seq<Option<u64>>,
    came: Seq<Option<(u32, u32)>>,
    stamp: Seq<nat>,
    clock: nat,
) -> bool {
    &&& cost.len() == m.len()
    &&& came.len() == m.len()
    &&& stamp.len() == m.len()
    &&& cost[start] == Some(0u64)
    &&& forall|v: int| 0 <= v < m.len() ==> #[trigger] stamp[v] < clock
    &&& forall|v: int|
        0 <= v < m.len() && v != start && (#[trigger] cost[v]) is Some ==> has_pred(
            m,
            cost,
            came,
            stamp,
            v,
        )
}

/// Every queued pair names a cell of known cost.
spec fn items_ok(m: Seq<Node>, cost: Seq<Option<u64>>, items: Multiset<(u64, u32)>) -> bool {
    forall|p: (u64, u32)| #[trigger]
        items.count(p) > 0 ==> p.1 < m.len() && cost[p.1 as int] is Some
}

/// When every cell of known cost is closed, every cell reachable from a cell of
/// known cost has a known cost.
proof fn lemma_walk_known(
    m: Seq<Node>,
    cost: Seq<Option<u64>>,
    steps: Seq<(u32, u32)>,
    from: u32,
    to: u32,
)
    requires
        cost.len() == m.len(),
        from < m.len(),
        cost[from as int] is Some,
        is_walk(m, steps, from, to),
        forall|u: int| 0 <= u < m.len() && (#[trigger] cost[u]) is Some ==> closed(m, cost, u),
        forall|c: int, e: int|
            0 <= c < m.len() && 0 <= e < m[c].edges@.len() ==> (#[trigger] m[c].edges@[e]).neighbor
                < m.len(),
    ensures
        cost[to as int] is Some,
    decreases steps.len(),
{
    if steps.len() > 0 {
        let e = steps[0].1 as int;
        let next = edge_at(m, steps[0]).neighbor;
        assert(closed(m, cost, from as int));
        assert(cost[m[from as int].edges@[e].neighbor as int] is Some);
        assert(m[from as int].edges@[e].neighbor < m.len());
        lemma_walk_known(m, cost, steps.drop_first(), next, to);
    }
}

/// Each step of a walk names an existing edge.
proof fn lemma_walk_steps_valid(m: Seq<Node>, steps: Seq<(u32, u32)>, from: u32, to: u32, q: int)
    requires
        is_walk(m, steps, from, to),
        0 <= q < steps.len(),
    ensures
        valid_step(m, steps[q]),
    decreases q,
{
    if q > 0 {
        lemma_walk_steps_valid(m, steps.drop_first(), edge_at(m, steps[0]).neighbor, to, q - 1);
    }
}

/// `p` is an endpoint of the portal of some edge of `m`.
pub open spec fn is_mesh_vertex(m: Seq<Node>, p: Point) -> bool {
    exists|c: int, e: int|
        0 <= c < m.len() && 0 <= e < m[c].edges@.len() && ((#[trigger] m[c].edges@[e]).vertices[0]
            == p || m[c].edges@[e].vertices[1] == p)
}

/// Every via-point of the path refined from the channel of a walk is an
/// endpoint of a portal of the mesh.
pub proof fn lemma_channel_vertices(
    m: Seq<Node>,
    steps: Seq<(u32, u32)>,
    from: u32,
    to: u32,
    goal: Point,
    ch: Seq<[Point; 2]>,
    start: Point,
)
    requires
        is_walk(m, steps, from, to),
        is_channel(m, steps, goal, ch),
    ensures
        forall|k: int|
            0 <= k < refined(start, ch).len() ==> is_mesh_vertex(m, #[trigger] refined(start, ch)[k]),
{
    lemma_funnel_vertices(ch, start, 0, 0, 1);
    assert forall|k: int| 0 <= k < refined(start, ch).len() implies is_mesh_vertex(m, #[trigger] refined(start, ch)[k]) by {
        let p = refined(start, ch)[k];
        assert(is_inner_vertex(ch, p));
        let j = choose|j: int| 0 <= j < ch.len() - 1 && ((#[trigger] ch[j])[0] == p || ch[j][1] == p);
        assert(ch[j] == ch.drop_last()[j]);
        lemma_walk_steps_valid(m, steps, from, to, j);
        let c = steps[j].0 as int;
        let e = steps[j].1 as int;
        assert(ch[j] == m[c].edges@[e].vertices);
        assert(m[c].edges@[e].vertices[0] == p || m[c].edges@[e].vertices[1] == p);
    }
}

/// A walk that ends in `v` extends by one edge into `v`.
proof fn lemma_walk_prepend(m: Seq<Node>, steps: Seq<(u32, u32)>, s: (u32, u32), to: u32)
    requires
        valid_step(m, s),
        is_walk(m, steps, edge_at(m, s).neighbor, to),
    ensures
        is_walk(m, seq![s] + steps, s.0, to),
{
    assert((seq![s] + steps).drop_first() =~= steps);
}

impl NavMesh {
    /// Every edge leads to a cell of the mesh, the mesh is not empty, cells and
    /// edges can be numbered by `u32`, and a channel through all cells can be
    /// indexed by `usize`.
    pub open spec fn well_formed(&self) -> bool {
        let m = self@;
        &&& 0 < m.len() <= u32::MAX
        &&& m.len() <= usize::MAX - 4
        &&& forall|c: int|
            0 <= c < m.len() ==> (#[trigger] m[c]).edges@.len() <= u32::MAX && forall|e: int|
                0 <= e < m[c].edges@.len() ==> (#[trigger] m[c].edges@[e]).neighbor < m.len()
    }

    pub fn new(nodes: Vec<Node>) -> (r: NavMesh)
        ensures
            r@ == nodes@,
    {
        NavMesh { nodes }
    }

    /// Plans a path from `start` in cell `start_node` to `goal` in cell
    /// `goal_node`: the via-points of the taut path through the channel that
    /// `plan_channel` finds, without the start and the goal themselves.
    pub fn plan(&self, start_node: u32, start: &Point, goal_node: u32, goal: &Point) -> (path: Vec<
        Point,
    >)
        requires
            self.well_formed(),
            start_node < self@.len(),
            goal_node < self@.len(),
            reachable(self@, start_node, goal_node),
        ensures
            exists|trace: Seq<SearchState>, pops: Seq<(u64, u32)>, steps: Seq<(u32, u32)>, ch: Seq<[Point; 2]>|
                #[trigger] planned_by(self@, start_node, *start, goal_node, *goal, trace, pops, steps, ch, path@),
            forall|k: int| 0 <= k < path@.len() ==> is_mesh_vertex(self@, #[trigger] path@[k]),
            path@.len() < self@.len(),
            start_node == goal_node ==> path@.len() == 0,
    {
        let channel = self.plan_channel(start_node, goal_node, goal);
        let path = refine_path(start, channel.as_slice());
        proof {
            let steps = choose|steps: Seq<(u32, u32)>|
                is_walk(self@, steps, start_node, goal_node) && is_simple(steps, goal_node)
                    && is_channel(self@, steps, *goal, channel@);
            lemma_channel_vertices(self@, steps, start_node, goal_node, *goal, channel@, *start);
            lemma_funnel_len(channel@, *start, 0, 0, 1);
            let (steps2, trace, pops) = choose|steps2: Seq<(u32, u32)>, trace: Seq<SearchState>, pops: Seq<(u64, u32)>|
                is_search(self@, start_node, goal_node, *goal, trace, pops) && follows_back_pointers(
                    trace.last().1,
                    steps2,
                    goal_node,
                ) && is_walk(self@, steps2, start_node, goal_node) && is_simple(steps2, goal_node)
                    && is_channel(self@, steps2, *goal, channel@);
            assert(planned_by(self@, start_node, *start, goal_node, *goal, trace, pops, steps2, channel@, path@));
            if start_node == goal_node {
                assert(refined(*start, channel@) =~= Seq::empty());
            }
        }
        path
    }

    /// A* search over the cells: the channel of portals from `start_node` to
    /// `goal_node`, ending with the degenerate portal `[goal, goal]`. Crossing an
    /// edge costs the distance between the two centers; a cell is queued with
    /// its cost so far plus its `heuristic`, raised to the priority of the cell
    /// being expanded where it is lower, as the frontier hands out priorities in
    /// non-decreasing order. Ties leave in the frontier's own order.
    #[verifier::rlimit(50)]
    pub fn plan_channel(&self, start_node: u32, goal_node: u32, goal: &Point) -> (channel: Vec<
        [Point; 2],
    >)
        requires
            self.well_formed(),
            start_node < self@.len(),
            goal_node < self@.len(),
            reachable(self@, start_node, goal_node),
        ensures
            exists|steps: Seq<(u32, u32)>|
                is_walk(self@, steps, start_node, goal_node) && is_simple(steps, goal_node)
                    && is_channel(self@, steps, *goal, channel@),
            exists|steps: Seq<(u32, u32)>, trace: Seq<SearchState>, pops: Seq<(u64, u32)>|
                #![trigger is_search(self@, start_node, goal_node, *goal, trace, pops), is_channel(self@, steps, *goal, channel@)]
                is_search(self@, start_node, goal_node, *goal, trace, pops) && follows_back_pointers(
                    trace.last().1,
                    steps,
                    goal_node,
                ) && is_walk(self@, steps, start_node, goal_node) && is_simple(steps, goal_node)
                    && is_channel(self@, steps, *goal, channel@),
            channel@.len() <= self@.len(),
            start_node == goal_node ==> channel@.len() == 1,
    {
        broadcast use vstd::multiset::group_multiset_axioms, vstd::multiset::group_multiset_properties;

        let ghost m = self@;
        let n = self.nodes.len();
        let mut cost: Vec<Option<u64>> = Vec::new();
        let mut came_from: Vec<Option<(u32, u32)>> = Vec::new();
        let mut k: usize = 0;
        while k < n
            invariant
                k <= n,
                cost@.len() == k,
                came_from@.len() == k,
                forall|v: int| 0 <= v < k ==> #[trigger] cost@[v] is None,
                forall|v: int| 0 <= v < k ==> #[trigger] came_from@[v] is None,
            decreases n - k,
        {
            cost.push(None);
            came_from.push(None);
            k += 1;
        }
        cost.set(start_node as usize, Some(0));
        let ghost mut stamp: Seq<nat> = Seq::new(n as nat, |v: int| 0nat);
        let ghost mut clock: nat = 1;
        // The frontier pops the greatest key first: priority `f` is the key `u64::MAX - f`.
        let mut frontier = frontier_new(u64::MAX);
        frontier_push(&mut frontier, u64::MAX, start_node);
        assert(frontier_items(frontier).count((u64::MAX, start_node)) > 0);
        assert forall|u: int| 0 <= u < n && (#[trigger] cost@[u]) is Some implies queued(frontier_items(frontier), u) by {
            assert(u == start_node);
            assert(frontier_items(frontier).count((u64::MAX, u as u32)) > 0);
        }
        let ghost mut trace: Seq<SearchState> = seq![search_init(n as nat, start_node)];
        let ghost mut pops: Seq<(u64, u32)> = Seq::empty();
        assert(cost@ =~= search_init(n as nat, start_node).0);
        assert(came_from@ =~= search_init(n as nat, start_node).1);

        loop
            invariant_except_break
                items_ok(m, cost@, frontier_items(frontier)),
                frontier_top(frontier) is Some,
                forall|u: int|
                    0 <= u < n && (#[trigger] cost@[u]) is Some ==> queued(frontier_items(frontier), u)
                        || closed(m, cost@, u),
                trace.last() == (cost@, came_from@, frontier_items(frontier)),
            invariant
                trace.len() == pops.len() + 1,
                trace[0] == search_init(n as nat, start_node),
                forall|k: int| 0 <= k < pops.len() ==> #[trigger] step_ok(m, goal_node, *goal, trace, pops, k),
                m == self@,
                self.well_formed(),
                n == m.len(),
                start_node < n,
                goal_node < n,
                reachable(m, start_node, goal_node),
                tables_ok(m, start_node as int, cost@, came_from@, stamp, clock),
            ensures
                tables_ok(m, start_node as int, cost@, came_from@, stamp, clock),
                cost@[goal_node as int] is Some,
                is_search(m, start_node, goal_node, *goal, trace, pops),
                trace.last().1 == came_from@,
            decreases 2 * total_weight(cost@) + frontier_items(frontier).len(),
        {
            let ghost measure0 = 2 * total_weight(cost@) + frontier_items(frontier).len();
            let ghost items0 = frontier_items(frontier);
            let popped = frontier_pop(&mut frontier);
            let (key, current) = match popped {
                None => {
                    proof {
                        assert forall|u: int| 0 <= u < n && (#[trigger] cost@[u]) is Some implies closed(m, cost@, u) by {
                            if queued(items0, u) {
                                let kk = choose|kk: u64| #[trigger] items0.count((kk, u as u32)) > 0;
                                assert(items0.count((kk, u as u32)) <= items0.len());
                            }
                        }
                        let steps = choose|steps: Seq<(u32, u32)>| is_walk(m, steps, start_node, goal_node);
                        lemma_walk_known(m, cost@, steps, start_node, goal_node);
                    }
                    break;
                },
                Some(p) => p,
            };
            assert(items0.count((key, current)) > 0);
            assert(is_pop(items0, key, current));
            if current == goal_node {
                break;
            }
            let ghost popped_state: SearchState = (cost@, came_from@, frontier_items(frontier));
            assert(popped_state == (trace.last().0, trace.last().1, trace.last().2.remove((key, current))));
            let cur_cost = cost[current as usize].unwrap();
            proof {
                assert forall|u: int| 0 <= u < n && u != current && (#[trigger] cost@[u]) is Some implies queued(frontier_items(frontier), u)
                    || closed(m, cost@, u) by {
                    if queued(items0, u) {
                        let kk = choose|kk: u64| #[trigger] items0.count((kk, u as u32)) > 0;
                        assert(frontier_items(frontier).count((kk, u as u32)) > 0);
                    }
                }
            }
            let edges_len = self.nodes[current as usize].edges.len();
            let mut i: usize = 0;
            while i < edges_len
                invariant
                    m == self@,
                    self.well_formed(),
                    n == m.len(),
                    start_node < n,
                    current < n,
                    current != goal_node,
                    edges_len == m[current as int].edges@.len(),
                    i <= edges_len,
                    cost@[current as int] == Some(cur_cost),
                    (cost@, came_from@, frontier_items(frontier)) == relax_edges(
                        m,
                        *goal,
                        current as int,
                        key,
                        popped_state,
                        i as int,
                    ),
                    tables_ok(m, start_node as int, cost@, came_from@, stamp, clock),
                    items_ok(m, cost@, frontier_items(frontier)),
                    frontier_top(frontier) == Some(key),
                    2 * total_weight(cost@) + frontier_items(frontier).len() < measure0,
                    forall|u: int|
                        0 <= u < n && u != current && (#[trigger] cost@[u]) is Some ==> queued(
                            frontier_items(frontier),
                            u,
                        ) || closed(m, cost@, u),
                    forall|e: int|
                        0 <= e < i ==> (#[trigger] cost@[m[current as int].edges@[e].neighbor as int]) is Some,
                decreases edges_len - i,
            {
                let ghost prev_state: SearchState = (cost@, came_from@, frontier_items(frontier));
                let next = self.nodes[current as usize].edges[i].neighbor;
                assert(m[current as int].edges@[i as int].neighbor < n);
                let step = self.edge_cost(current, i);
                let next_cost: u64 = if cur_cost > u64::MAX - step {
                    u64::MAX
                } else {
                    cur_cost + step
                };
                let improves = match cost[next as usize] {
                    Some(c) => next_cost < c,
                    None => true,
                };
                if improves {
                    let ghost cost0 = cost@;
                    let ghost came0 = came_from@;
                    let ghost stamp0 = stamp;
                    let ghost items1 = frontier_items(frontier);
                    assert(next != current);
                    assert(next != start_node);
                    cost.set(next as usize, Some(next_cost));
                    came_from.set(next as usize, Some((current, i as u32)));
                    proof {
                        stamp = stamp.update(next as int, clock);
                        clock = clock + 1;
                        lemma_total_weight_update(cost0, next as int, Some(next_cost));
                    }
                    let h = self.heuristic(next, goal);
                    let f: u64 = if next_cost > u64::MAX - h {
                        u64::MAX
                    } else {
                        next_cost + h
                    };
                    let pushed_key: u64 = if u64::MAX - f <= key {
                        u64::MAX - f
                    } else {
                        key
                    };
                    frontier_push(&mut frontier, pushed_key, next);
                    proof {
                        assert(frontier_items(frontier).count((pushed_key, next)) > 0);
                        assert forall|v: int|
                            0 <= v < n && v != start_node && (#[trigger] cost@[v]) is Some implies has_pred(
                                m,
                                cost@,
                                came_from@,
                                stamp,
                                v,
                            ) by {
                            if v != next {
                                assert(cost0[v] is Some);
                                assert(has_pred(m, cost0, came0, stamp0, v));
                            }
                        }
                        assert forall|u: int|
                            0 <= u < n && u != current && (#[trigger] cost@[u]) is Some implies queued(
                                frontier_items(frontier),
                                u,
                            ) || closed(m, cost@, u) by {
                            if u == next {
                                assert(frontier_items(frontier).count((pushed_key, u as u32)) > 0);
                            } else {
                                assert(cost0[u] is Some);
                                if queued(items1, u) {
                                    let kk = choose|kk: u64| #[trigger] items1.count((kk, u as u32)) > 0;
                                    assert(frontier_items(frontier).count((kk, u as u32)) > 0);
                                } else {
                                    assert(closed(m, cost0, u));
                                    assert forall|e: int| 0 <= e < m[u].edges@.len() implies (#[trigger] cost@[m[u].edges@[e].neighbor as int]) is Some by {
                                        assert(cost0[m[u].edges@[e].neighbor as int] is Some);
                                    }
                                }
                            }
                        }
                        assert forall|e: int| 0 <= e < i + 1 implies (#[trigger] cost@[m[current as int].edges@[e].neighbor as int]) is Some by {
                            if e < i {
                                assert(cost0[m[current as int].edges@[e].neighbor as int] is Some);
                            }
                        }
                    }
                }
                i += 1;
                assert((cost@, came_from@, frontier_items(frontier)) == relax_edge(
                    m,
                    *goal,
                    current as int,
                    key,
                    prev_state,
                    (i - 1) as int,
                ));
            }
            proof {
                let ghost new_state = (cost@, came_from@, frontier_items(frontier));
                assert(new_state == expand(m, *goal, trace.last(), key, current));
                let old_trace = trace;
                let old_pops = pops;
                trace = trace.push(new_state);
                pops = pops.push((key, current));
                assert forall|k: int| 0 <= k < pops.len() implies #[trigger] step_ok(m, goal_node, *goal, trace, pops, k) by {
                    if k < old_pops.len() {
                        assert(step_ok(m, goal_node, *goal, old_trace, old_pops, k));
                        assert(trace[k] == old_trace[k]);
                        assert(trace[k + 1] == old_trace[k + 1]);
                    } else {
                        assert(trace[k] == old_trace.last());
                    }
                }
            }
        }

        let mut trail: Vec<(u32, u32)> = Vec::new();
        let ghost mut steps: Seq<(u32, u32)> = Seq::empty();
        let ghost mut seen: Set<int> = Set::empty();
        let mut node = goal_node;
        while node != start_node
            invariant
                tables_ok(m, start_node as int, cost@, came_from@, stamp, clock),
                self.well_formed(),
                m == self@,
                n == m.len(),
                node < n,
                cost@[node as int] is Some,
                is_walk(m, steps, node, goal_node),
                trail@.len() == steps.len(),
                forall|j: int| 0 <= j < steps.len() ==> #[trigger] trail@[j] == steps[steps.len() - 1 - j],
                seen.finite(),
                seen.len() == steps.len(),
                seen.subset_of(set_int_range(0, n as int)),
                forall|x: int| seen.contains(x) ==> precedes(cost@, stamp, node as int, x),
                steps.len() == 0 ==> node == goal_node,
                steps.len() > 0 ==> seen.contains(goal_node as int),
                forall|a: int, b: int|
                    0 <= a < b <= steps.len() ==> precedes(
                        cost@,
                        stamp,
                        #[trigger] walk_cell(steps, goal_node, a) as int,
                        #[trigger] walk_cell(steps, goal_node, b) as int,
                    ),
                walk_cell(steps, goal_node, 0) == node,
                is_search(m, start_node, goal_node, *goal, trace, pops),
                trace.last().1 == came_from@,
                follows_back_pointers(came_from@, steps, goal_node),
            decreases cost@[node as int]->0, stamp[node as int],
        {
            assert(has_pred(m, cost@, came_from@, stamp, node as int));
            let (prev, e) = came_from[node as usize].unwrap();
            trail.push((prev, e));
            proof {
                lemma_walk_prepend(m, steps, (prev, e), goal_node);
                let old_steps = steps;
                steps = seq![(prev, e)] + steps;
                seen = seen.insert(node as int);
                assert forall|k: int| 0 <= k <= old_steps.len() implies walk_cell(steps, goal_node, k + 1)
                    == walk_cell(old_steps, goal_node, k) by {}
                assert forall|k: int| 0 <= k < steps.len() implies came_from@[walk_cell(steps, goal_node, k + 1) as int]
                    == Some(#[trigger] steps[k]) by {
                    if k > 0 {
                        assert(steps[k] == old_steps[k - 1]);
                        assert(came_from@[walk_cell(old_steps, goal_node, k) as int] == Some(old_steps[k - 1]));
                    }
                }
                assert forall|a: int, b: int|
                    0 <= a < b <= steps.len() implies precedes(
                        cost@,
                        stamp,
                        #[trigger] walk_cell(steps, goal_node, a) as int,
                        #[trigger] walk_cell(steps, goal_node, b) as int,
                    ) by {
                    assert(walk_cell(steps, goal_node, b) == walk_cell(old_steps, goal_node, b - 1));
                    if a > 0 {
                        assert(walk_cell(steps, goal_node, a) == walk_cell(old_steps, goal_node, a - 1));
                    } else if b > 1 {
                        assert(precedes(cost@, stamp, walk_cell(old_steps, goal_node, 0) as int, walk_cell(old_steps, goal_node, b - 1) as int));
                    }
                }
            }
            node = prev;
        }
        proof {
            assert forall|a: int, b: int|
                0 <= a < b <= steps.len() implies walk_cell(steps, goal_node, a) != walk_cell(steps, goal_node, b) by {
                assert(precedes(cost@, stamp, walk_cell(steps, goal_node, a) as int, walk_cell(steps, goal_node, b) as int));
            }
            if start_node == goal_node && steps.len() > 0 {
                assert(precedes(cost@, stamp, node as int, goal_node as int));
            }
            lemma_int_range(0, n as int);
            lemma_len_subset(seen.insert(node as int), set_int_range(0, n as int));
        }

        let mut channel: Vec<[Point; 2]> = Vec::new();
        let mut j: usize = trail.len();
        while j > 0
            invariant
                self.well_formed(),
                m == self@,
                j <= trail@.len(),
                trail@.len() == steps.len(),
                forall|q: int| 0 <= q < steps.len() ==> #[trigger] trail@[q] == steps[steps.len() - 1 - q],
                is_walk(m, steps, start_node, goal_node),
                is_simple(steps, goal_node),
                is_search(m, start_node, goal_node, *goal, trace, pops),
                follows_back_pointers(trace.last().1, steps, goal_node),
                channel@.len() == steps.len() - j,
                forall|q: int| 0 <= q < channel@.len() ==> #[trigger] channel@[q] == edge_at(m, steps[q]).vertices,
            decreases j,
        {
            j -= 1;
            let (c, e) = trail[j];
            proof {
                lemma_walk_steps_valid(m, steps, start_node, goal_node, steps.len() - 1 - j);
            }
            channel.push(self.nodes[c as usize].edges[e as usize].vertices);
        }
        channel.push([*goal, *goal]);
        assert(channel@.drop_last() =~= channel_of(m, steps));
        assert(is_search(m, start_node, goal_node, *goal, trace, pops) && is_channel(m, steps, *goal, channel@));
        channel
    }

    /// Cost of crossing edge `edge` of cell `node`.
    fn edge_cost(&self, node: u32, edge: usize) -> (r: u64)
        requires
            self.well_formed(),
            node < self@.len(),
            edge < self@[node as int].edges@.len(),
        ensures
            r == edge_cost_spec(self@, node as int, edge as int),
    {
        let n = &self.nodes[node as usize];
        let neighbor = &self.nodes[n.edges[edge].neighbor as usize];
        distance(&n.center, &neighbor.center)
    }

    /// Search heuristic of cell `node`: the least distance from `goal` to an
    /// endpoint of one of the cell's portals, or `u64::MAX` for a cell without
    /// edges. Both endpoints are measured by the same (unsquared) distance.
    pub fn heuristic(&self, node: u32, goal: &Point) -> (r: u64)
        requires
            node < self@.len(),
        ensures
            r == nearest_portal(self@[node as int].edges@, *goal),
    {
        let edges = &self.nodes[node as usize].edges;
        let mut best: u64 = u64::MAX;
        let mut k: usize = 0;
        while k < edges.len()
            invariant
                edges@ == self@[node as int].edges@,
                k <= edges@.len(),
                best == nearest_portal(edges@.subrange(0, k as int), *goal),
            decreases edges@.len() - k,
        {
            let e = edges[k];
            let d0 = distance(&e.vertices[0], goal);
            let d1 = distance(&e.vertices[1], goal);
            let d = if d0 <= d1 { d0 } else { d1 };
            if d <= best {
                best = d;
            }
            assert(edges@.subrange(0, k + 1).drop_last() =~= edges@.subrange(0, k as int));
            k += 1;
        }
        assert(edges@.subrange(0, k as int) =~= edges@);
        best
    }
}

} // verus!
