use std::collections::HashMap;

use rand::seq::IteratorRandom;
use vstd::prelude::*;

use crate::coord::{Coord, Edge};

verus! {

broadcast use vstd::std_specs::hash::group_hash_axioms;

/// The integer under which a coordinate's adjacency list is stored.
pub open spec fn key_of(c: Coord) -> i128 {
    (c.lon as int * 0x1_0000_0000 + c.lat as int) as i128
}

proof fn lemma_key_injective(a: Coord, b: Coord)
    requires
        key_of(a) == key_of(b),
    ensures
        a == b,
{
}

fn key(c: Coord) -> (r: i128)
    ensures
        r == key_of(c),
{
    c.lon as i128 * 0x1_0000_0000i128 + c.lat as i128
}

/// The consecutive point pairs of one polyline, in order.
pub open spec fn way_segments(way: Seq<Coord>) -> Seq<(Coord, Coord)> {
    Seq::new(
        (if way.len() >= 1 {
            way.len() - 1
        } else {
            0
        }) as nat,
        |i: int| (way[i], way[i + 1]),
    )
}

/// The consecutive point pairs of every polyline, polyline after polyline.
pub open spec fn segments(ways: Seq<Seq<Coord>>) -> Seq<(Coord, Coord)>
    decreases ways.len(),
{
    if ways.len() == 0 {
        seq![]
    } else {
        segments(ways.drop_last()) + way_segments(ways.last())
    }
}

/// The polylines held by `ways`, as sequences.
pub open spec fn ways_view(ways: &Vec<Vec<Coord>>) -> Seq<Seq<Coord>> {
    ways@.map_values(|w: Vec<Coord>| w@)
}

/// The outgoing edges of `c` after adding the segment `a`–`b` in both directions.
pub open spec fn add_segment(prev: Seq<Edge>, c: Coord, a: Coord, b: Coord, cost: i64) -> Seq<Edge> {
    let s = if c == a {
        prev.push(Edge { target: b, cost })
    } else {
        prev
    };
    if c == b {
        s.push(Edge { target: a, cost })
    } else {
        s
    }
}

/// The outgoing edges of `c` in the graph made of the segments `segs`, whose
/// costs are `costs`, inserted in order.
pub open spec fn adjacency(segs: Seq<(Coord, Coord)>, costs: Seq<i64>, c: Coord) -> Seq<Edge>
    decreases segs.len(),
{
    if segs.len() == 0 {
        seq![]
    } else {
        add_segment(
            adjacency(segs.drop_last(), costs.drop_last(), c),
            c,
            segs.last().0,
            segs.last().1,
            costs.last(),
        )
    }
}

/// An undirected road graph: for each coordinate, its outgoing edges in the
/// order they were inserted.
pub struct Graph {
    adj: HashMap<i128, Vec<Edge>>,
}

impl Graph {
    /// The outgoing edges of `c`; empty when `c` is no node of the graph.
    pub closed spec fn edges_from(&self, c: Coord) -> Seq<Edge> {
        if self.adj@.contains_key(key_of(c)) {
            self.adj@[key_of(c)]@
        } else {
            seq![]
        }
    }

    /// Every edge cost is non-negative.
    pub open spec fn wf(&self) -> bool {
        forall|c: Coord, i: int|
            0 <= i < self.edges_from(c).len() ==> #[trigger] self.edges_from(c)[i].cost >= 0
    }

    pub fn new() -> (r: Graph)
        ensures
            r.wf(),
            forall|c: Coord| #[trigger] r.edges_from(c) == Seq::<Edge>::empty(),
    {
        Graph { adj: HashMap::new() }
    }

    /// Appends the edge `e` to the outgoing edges of `from`.
    pub fn add_edge(&mut self, from: Coord, e: Edge)
        ensures
            old(self).wf() && e.cost >= 0 ==> final(self).wf(),
            forall|c: Coord| #[trigger]
                final(self).edges_from(c) == if c == from {
                    old(self).edges_from(c).push(e)
                } else {
                    old(self).edges_from(c)
                },
    {
        let k = key(from);
        let mut v = match self.adj.remove(&k) {
            Some(v) => v,
            None => Vec::new(),
        };
        v.push(e);
        self.adj.insert(k, v);
        proof {
            assert forall|c: Coord| #[trigger]
                self.edges_from(c) == if c == from {
                    old(self).edges_from(c).push(e)
                } else {
                    old(self).edges_from(c)
                } by {
                if c != from {
                    if key_of(c) == key_of(from) {
                        lemma_key_injective(c, from);
                    }
                }
            }
        }
    }

    /// The graph's edges are those of `segs` inserted in order, with `costs`.
    pub open spec fn holds_segments(&self, segs: Seq<(Coord, Coord)>, costs: Seq<i64>) -> bool {
        &&& costs.len() == segs.len()
        &&& forall|c: Coord| #[trigger] self.edges_from(c) == adjacency(segs, costs, c)
    }
}

/// `costs` has one entry for each segment, what `cost` returned for it.
pub open spec fn costs_of<F: Fn(Coord, Coord) -> i64>(
    segs: Seq<(Coord, Coord)>,
    costs: Seq<i64>,
    cost: F,
) -> bool {
    &&& costs.len() == segs.len()
    &&& forall|k: int| 0 <= k < segs.len() ==> cost.ensures(#[trigger] segs[k], costs[k])
}

/// Builds the undirected road graph of `highways`: each pair of consecutive
/// points `a`, `b` of a polyline adds an edge `a → b` and an edge `b → a`, both
/// weighted with `cost(a, b)`.
pub fn build_graph<F: Fn(Coord, Coord) -> i64>(highways: &Vec<Vec<Coord>>, cost: F) -> (r: Graph)
    requires
        forall|a: Coord, b: Coord| cost.requires((a, b)),
        forall|a: Coord, b: Coord, c: i64| cost.ensures((a, b), c) ==> c >= 0,
    ensures
        r.wf(),
        exists|costs: Seq<i64>| #[trigger]
            costs_of(segments(ways_view(highways)), costs, cost) && r.holds_segments(
                segments(ways_view(highways)),
                costs,
            ),
{
    let ghost ways = ways_view(highways);
    let mut g = Graph::new();
    let ghost mut costs: Seq<i64> = seq![];
    let mut w: usize = 0;
    while w < highways.len()
        invariant
            ways == ways_view(highways),
            w <= highways.len(),
            g.wf(),
            costs_of(segments(ways.take(w as int)), costs, cost),
            g.holds_segments(segments(ways.take(w as int)), costs),
            forall|a: Coord, b: Coord| cost.requires((a, b)),
            forall|a: Coord, b: Coord, c: i64| cost.ensures((a, b), c) ==> c >= 0,
        decreases highways.len() - w,
    {
        let way = &highways[w];
        let ghost prefix = segments(ways.take(w as int));
        assert(ways.take(w as int + 1).drop_last() =~= ways.take(w as int));
        assert(way@ == ways[w as int]);
        let mut i: usize = 0;
        while i + 1 < way.len()
            invariant
                ways == ways_view(highways),
                w < highways.len(),
                way@ == ways[w as int],
                prefix == segments(ways.take(w as int)),
                g.wf(),
                costs_of(prefix + way_segments(way@).take(i as int), costs, cost),
                g.holds_segments(prefix + way_segments(way@).take(i as int), costs),
                i == 0 || i < way.len(),
                forall|a: Coord, b: Coord| cost.requires((a, b)),
                forall|a: Coord, b: Coord, c: i64| cost.ensures((a, b), c) ==> c >= 0,
            decreases way.len() - i,
        {
            let a = way[i];
            let b = way[i + 1];
            let c = cost(a, b);
            let ghost before = prefix + way_segments(way@).take(i as int);
            let ghost after = prefix + way_segments(way@).take(i as int + 1);
            assert(after =~= before.push((a, b)));
            g.add_edge(a, Edge { target: b, cost: c });
            g.add_edge(b, Edge { target: a, cost: c });
            proof {
                let old_costs = costs;
                costs = costs.push(c);
                assert(costs.drop_last() =~= old_costs);
                assert(after.drop_last() =~= before);
                assert forall|k: int| 0 <= k < after.len() implies cost.ensures(
                    #[trigger] after[k],
                    costs[k],
                ) by {
                    if k < before.len() {
                        assert(after[k] == before[k]);
                    }
                }
            }
            i = i + 1;
        }
        proof {
            assert(way_segments(way@).take(i as int) =~= way_segments(way@));
            assert(segments(ways.take(w as int + 1)) =~= prefix + way_segments(way@));
        }
        w = w + 1;
    }
    assert(ways.take(w as int) =~= ways);
    g
}

proof fn lemma_adjacency_holds(segs: Seq<(Coord, Coord)>, costs: Seq<i64>, k: int)
    requires
        costs.len() == segs.len(),
        0 <= k < segs.len(),
    ensures
        adjacency(segs, costs, segs[k].0).contains(Edge { target: segs[k].1, cost: costs[k] }),
        adjacency(segs, costs, segs[k].1).contains(Edge { target: segs[k].0, cost: costs[k] }),
    decreases segs.len(),
{
    let (a, b) = segs[k];
    let n = segs.len() - 1;
    let ea = Edge { target: b, cost: costs[k] };
    let eb = Edge { target: a, cost: costs[k] };
    if k < n {
        lemma_adjacency_holds(segs.drop_last(), costs.drop_last(), k);
        assert(segs.drop_last()[k] == segs[k]);
        assert(costs.drop_last()[k] == costs[k]);
        let pa = adjacency(segs.drop_last(), costs.drop_last(), a);
        let pb = adjacency(segs.drop_last(), costs.drop_last(), b);
        let ia = choose|i: int| 0 <= i < pa.len() && pa[i] == ea;
        let ib = choose|i: int| 0 <= i < pb.len() && pb[i] == eb;
        assert(adjacency(segs, costs, a)[ia] == ea);
        assert(adjacency(segs, costs, b)[ib] == eb);
    } else {
        let pa = adjacency(segs.drop_last(), costs.drop_last(), a);
        let s1 = pa.push(ea);
        assert(s1[pa.len() as int] == ea);
        if a == b {
            assert(adjacency(segs, costs, a)[pa.len() as int] == ea);
            assert(adjacency(segs, costs, a)[pa.len() as int + 1] == eb);
        } else {
            assert(adjacency(segs, costs, a) == s1);
            assert(adjacency(segs, costs, a)[pa.len() as int] == ea);
            let pb = adjacency(segs.drop_last(), costs.drop_last(), b);
            assert(adjacency(segs, costs, b)[pb.len() as int] == eb);
        }
    }
}

proof fn lemma_segment_listed(ways: Seq<Seq<Coord>>, w: int, i: int) -> (k: int)
    requires
        0 <= w < ways.len(),
        0 <= i < ways[w].len() - 1,
    ensures
        0 <= k < segments(ways).len(),
        segments(ways)[k] == (ways[w][i], ways[w][i + 1]),
    decreases ways.len(),
{
    let prev = segments(ways.drop_last());
    if w == ways.len() - 1 {
        prev.len() + i
    } else {
        assert(ways.drop_last()[w] == ways[w]);
        let k = lemma_segment_listed(ways.drop_last(), w, i);
        assert(segments(ways)[k] == prev[k]);
        k
    }
}

/// In a graph built from polylines, every pair `a`, `b` of consecutive points
/// of a polyline is joined by an edge `a → b` and an edge `b → a` of one and
/// the same cost, a cost that the cost function returned for `(a, b)`.
pub proof fn lemma_segment_edges<F: Fn(Coord, Coord) -> i64>(
    g: &Graph,
    ways: Seq<Seq<Coord>>,
    costs: Seq<i64>,
    cost: F,
    w: int,
    i: int,
)
    requires
        costs_of(segments(ways), costs, cost),
        g.holds_segments(segments(ways), costs),
        0 <= w < ways.len(),
        0 <= i < ways[w].len() - 1,
    ensures
        exists|c: i64|
            #![trigger cost.ensures((ways[w][i], ways[w][i + 1]), c)]
            cost.ensures((ways[w][i], ways[w][i + 1]), c) && g.edges_from(ways[w][i]).contains(
                Edge { target: ways[w][i + 1], cost: c },
            ) && g.edges_from(ways[w][i + 1]).contains(Edge { target: ways[w][i], cost: c }),
{
    let k = lemma_segment_listed(ways, w, i);
    lemma_adjacency_holds(segments(ways), costs, k);
    assert(cost.ensures(segments(ways)[k], costs[k]));
}

/// There is an edge from `a` to `b`.
pub open spec fn has_edge(g: &Graph, a: Coord, b: Coord) -> bool {
    exists|i: int| 0 <= i < g.edges_from(a).len() && (#[trigger] g.edges_from(a)[i]).target == b
}

/// `p` is a walk from `s` to `t`: it starts at `s`, ends at `t`, and each
/// consecutive pair of its points is an edge.
pub open spec fn is_walk(g: &Graph, p: Seq<Coord>, s: Coord, t: Coord) -> bool {
    &&& p.len() >= 1
    &&& p[0] == s
    &&& p.last() == t
    &&& forall|i: int| 0 <= i < p.len() - 1 ==> #[trigger] has_edge(g, p[i], p[i + 1])
}

/// Some walk leads from `s` to `t`.
pub open spec fn reachable(g: &Graph, s: Coord, t: Coord) -> bool {
    exists|p: Seq<Coord>| #[trigger] is_walk(g, p, s, t)
}

/// The least cost of an edge of `es` to `b`, if any.
pub open spec fn min_cost_to(es: Seq<Edge>, b: Coord) -> Option<i64>
    decreases es.len(),
{
    if es.len() == 0 {
        None
    } else {
        let rest = min_cost_to(es.drop_last(), b);
        let e = es.last();
        if e.target != b {
            rest
        } else {
            match rest {
                Some(c) if c <= e.cost => Some(c),
                _ => Some(e.cost),
            }
        }
    }
}

/// The cost of the step from `a` to `b`: the cheapest edge between them.
pub open spec fn step_cost(g: &Graph, a: Coord, b: Coord) -> int {
    match min_cost_to(g.edges_from(a), b) {
        Some(c) => c as int,
        None => 0,
    }
}

/// The cost of the walk `p`: the sum of its steps' costs.
pub open spec fn walk_cost(g: &Graph, p: Seq<Coord>) -> int
    decreases p.len(),
{
    if p.len() <= 1 {
        0
    } else {
        walk_cost(g, p.drop_last()) + step_cost(g, p[p.len() - 2], p.last())
    }
}

impl Graph {
    /// The successors of `c` with the cost of reaching each, in edge order.
    pub fn successors(&self, c: &Coord) -> (r: Vec<(Coord, i64)>)
        ensures
            r@.len() == self.edges_from(*c).len(),
            forall|i: int|
                0 <= i < r@.len() ==> #[trigger] r@[i] == (
                    self.edges_from(*c)[i].target,
                    self.edges_from(*c)[i].cost,
                ),
    {
        let mut r: Vec<(Coord, i64)> = Vec::new();
        match self.adj.get(&key(*c)) {
            Some(es) => {
                let mut i: usize = 0;
                while i < es.len()
                    invariant
                        es@ == self.edges_from(*c),
                        i <= es.len(),
                        r@.len() == i,
                        forall|j: int|
                            0 <= j < i ==> #[trigger] r@[j] == (es@[j].target, es@[j].cost),
                    decreases es.len() - i,
                {
                    r.push((es[i].target, es[i].cost));
                    i = i + 1;
                }
            },
            None => {},
        }
        r
    }

    /// The cheapest edge cost from `a` to `b`, if there is such an edge.
    fn min_cost(&self, a: Coord, b: Coord) -> (r: Option<i64>)
        ensures
            r == min_cost_to(self.edges_from(a), b),
    {
        let mut best: Option<i64> = None;
        match self.adj.get(&key(a)) {
            Some(es) => {
                let mut i: usize = 0;
                while i < es.len()
                    invariant
                        es@ == self.edges_from(a),
                        i <= es.len(),
                        best == min_cost_to(es@.take(i as int), b),
                    decreases es.len() - i,
                {
                    assert(es@.take(i as int + 1).drop_last() =~= es@.take(i as int));
                    let e = es[i];
                    if e.target == b {
                        best = match best {
                            Some(c) if c <= e.cost => Some(c),
                            _ => Some(e.cost),
                        };
                    }
                    i = i + 1;
                }
                assert(es@.take(i as int) =~= es@);
            },
            None => {},
        }
        best
    }

    /// The cost of the walk `p`, each step taken over its cheapest edge.
    pub fn path_cost(&self, p: &Vec<Coord>) -> (r: i128)
        requires
            self.wf(),
        ensures
            r == walk_cost(self, p@),
    {
        let mut total: i128 = 0;
        if p.len() <= 1 {
            return 0;
        }
        let mut i: usize = 1;
        while i < p.len()
            invariant
                self.wf(),
                1 <= i <= p.len(),
                total == walk_cost(self, p@.take(i as int)),
                0 <= total <= (i - 1) * (i64::MAX as int),
            decreases p.len() - i,
        {
            let ghost q = p@.take(i as int + 1);
            assert(q.drop_last() =~= p@.take(i as int));
            let c = match self.min_cost(p[i - 1], p[i]) {
                Some(c) => c,
                None => 0,
            };
            proof {
                if let Some(m) = min_cost_to(self.edges_from(p@[i - 1]), p@[i as int]) {
                    lemma_min_cost_nonneg(self, p@[i - 1], p@[i as int]);
                }
                assert((i - 1) * (i64::MAX as int) + i64::MAX == i * (i64::MAX as int)) by (nonlinear_arith);
                assert(i * (i64::MAX as int) < 0x1_0000_0000_0000_0000 * 0x8000_0000_0000_0000) by (nonlinear_arith)
                    requires i < 0x1_0000_0000_0000_0000;
            }
            total = total + c as i128;
            i = i + 1;
        }
        assert(p@.take(i as int) =~= p@);
        total
    }
}

/// `heuristic` never overestimates: every value it returns for a node is at
/// most the cost of every walk from that node to `goal`, and every value it
/// returns for `goal` itself is zero or more (so exactly zero).
pub open spec fn admissible<H: Fn(Coord) -> i64>(g: &Graph, goal: Coord, heuristic: H) -> bool {
    &&& forall|v: i64| #[trigger] heuristic.ensures((goal,), v) ==> v >= 0
    &&& forall|n: Coord, v: i64, q: Seq<Coord>|
        #[trigger] heuristic.ensures((n,), v) && #[trigger] is_walk(g, q, n, goal) ==> v <= walk_cost(g, q)
}

/// Relies on `pathfinding::directed::astar::astar`, which searches from
/// `start` with the graph's edges and `heuristic`, stops at the first node equal
/// to `goal` that it takes from its queue, and rebuilds the path from the
/// parent each node was reached from. Each parent link is an edge, so the path
/// is a walk from `start` to `goal`. It returns `None` only once its queue is
/// empty, after every node reachable from `start` was taken from it. With
/// non-negative edge costs a recorded path never repeats a node, so the search
/// ends; costs are summed as `i128`, where a path over at most `2^64` nodes
/// with `i64` edge costs, plus an `i64` estimate, cannot overflow. As its
/// documentation states, the path is a shortest one when the heuristic never
/// overestimates: a node's queue entry is `g + h`, the goal's entry has
/// `h >= 0`, and before the goal is taken some node of a shortest path waits
/// with its least cost `g`, whose entry is then at most the shortest cost. Each
/// parent link was set with its parent's cost at the time, which only falls
/// later, so the rebuilt path costs no more than the goal's cost, and taking
/// the cheapest edge of each step costs no more again.
#[verifier::external_body]
fn astar_walk<H: Fn(Coord) -> i64>(g: &Graph, start: Coord, goal: Coord, heuristic: &H) -> (r:
    Option<Vec<Coord>>)
    requires
        g.wf(),
        forall|c: Coord| heuristic.requires((c,)),
    ensures
        match r {
            Some(p) => is_walk(g, p@, start, goal),
            None => !reachable(g, start, goal),
        },
        r matches Some(p) ==> admissible(g, goal, *heuristic) ==> forall|q: Seq<Coord>|
            #[trigger] is_walk(g, q, start, goal) ==> walk_cost(g, p@) <= walk_cost(g, q),
{
    pathfinding::directed::astar::astar(
        &start,
        |n: &Coord| g.successors(n).into_iter().map(|(m, c)| (m, c as i128)),
        |n: &Coord| heuristic(*n) as i128,
        |n: &Coord| *n == goal,
    ).map(|(p, _)| p)
}

/// A* search from `start` to `goal`, guided by `heuristic`, an estimate of the
/// remaining cost from a node to `goal`.
///
/// Returns the path found, from `start` to `goal` inclusive, with its cost:
/// the sum over its steps of the cheapest edge of each step. Returns `None`
/// exactly when no walk leads from `start` to `goal`. When `heuristic` never
/// overestimates, the path found is a shortest one.
pub fn find_path<H: Fn(Coord) -> i64>(graph: &Graph, start: Coord, goal: Coord, heuristic: H) -> (r:
    Option<(Vec<Coord>, i128)>)
    requires
        graph.wf(),
        forall|c: Coord| heuristic.requires((c,)),
    ensures
        r is None <==> !reachable(graph, start, goal),
        r matches Some((p, c)) ==> is_walk(graph, p@, start, goal) && c == walk_cost(graph, p@),
        r matches Some((p, c)) ==> admissible(graph, goal, heuristic) ==> forall|q: Seq<Coord>|
            #[trigger] is_walk(graph, q, start, goal) ==> c <= walk_cost(graph, q),
{
    match astar_walk(graph, start, goal, &heuristic) {
        Some(p) => {
            let c = graph.path_cost(&p);
            Some((p, c))
        },
        None => None,
    }
}

proof fn lemma_min_cost_nonneg(g: &Graph, a: Coord, b: Coord)
    requires
        g.wf(),
    ensures
        0 <= step_cost(g, a, b) <= i64::MAX,
{
    lemma_min_cost_in(g.edges_from(a), b);
}

proof fn lemma_min_cost_in(es: Seq<Edge>, b: Coord)
    ensures
        min_cost_to(es, b) matches Some(c) ==> exists|i: int|
            0 <= i < es.len() && #[trigger] es[i].cost == c,
    decreases es.len(),
{
    if es.len() > 0 {
        lemma_min_cost_in(es.drop_last(), b);
        if let Some(c) = min_cost_to(es.drop_last(), b) {
            let i = choose|i: int| 0 <= i < es.drop_last().len() && #[trigger] es.drop_last()[i].cost == c;
            assert(es[i].cost == c);
        }
    }
}

/// Relies on `rand::seq::IteratorRandom::choose` over `0..n` with the
/// thread-local generator: `None` exactly when the range is empty, else one
/// of its elements.
#[verifier::external_body]
fn random_index(n: usize) -> (r: Option<usize>)
    ensures
        r is None <==> n == 0,
        r matches Some(i) ==> i < n,
{
    (0..n).choose(&mut rand::thread_rng())
}

/// A point of the polylines `highways` picked at random: a polyline first,
/// then one of its points. `None` when there is no polyline or the one
/// picked is empty.
pub fn get_random_node(highways: &Vec<Vec<Coord>>) -> (r: Option<Coord>)
    ensures
        r matches Some(c) ==> crate::projector::on_ways(ways_view(highways), c),
        highways@.len() == 0 ==> r is None,
        highways@.len() > 0 && (forall|w: int| 0 <= w < highways@.len() ==> #[trigger] highways@[w]@.len() > 0)
            ==> r is Some,
{
    match random_index(highways.len()) {
        None => None,
        Some(w) => match random_index(highways[w].len()) {
            None => None,
            Some(i) => {
                proof {
                    let ws = ways_view(highways);
                    assert(ws[w as int][i as int] == highways@[w as int]@[i as int]);
                }
                Some(highways[w][i])
            },
        },
    }
}

} // verus!
