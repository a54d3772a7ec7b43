//! Routes through a graph, and why the search for the shortest one finds it.
use vstd::prelude::*;
use crate::graph::Edge;

verus! {

/// The value that stands for "no route yet": one above the greatest weight
/// that a route can be told to have.
pub open spec fn limit() -> int {
    u32::MAX + 1
}

/// A route from the node `from` to the node `to`: a chain of steps, each the
/// index of a node and the index of one of its edges, where every edge leads
/// to the node of the next step and the last edge leads to `to`. The route
/// without steps leads from a node to itself.
pub open spec fn route_ok(
    adjacency: Seq<Seq<Edge>>,
    from: int,
    route: Seq<(int, int)>,
    to: int,
) -> bool
    decreases route.len(),
{
    if route.len() == 0 {
        from == to && 0 <= from < adjacency.len()
    } else {
        &&& 0 <= route.last().0 < adjacency.len()
        &&& 0 <= route.last().1 < adjacency[route.last().0].len()
        &&& adjacency[route.last().0][route.last().1].node == to
        &&& route_ok(adjacency, from, route.drop_last(), route.last().0)
    }
}

/// The weight of a route: the weights of its edges, added up.
pub open spec fn route_weight(adjacency: Seq<Seq<Edge>>, route: Seq<(int, int)>) -> int
    decreases route.len(),
{
    if route.len() == 0 {
        0
    } else {
        route_weight(adjacency, route.drop_last()) + adjacency[route.last().0][route.last().1].weight
    }
}

/// The nodes that a route passes, from its first to its last.
pub open spec fn route_nodes(adjacency: Seq<Seq<Edge>>, from: int, route: Seq<(int, int)>) -> Seq<
    int,
>
    decreases route.len(),
{
    if route.len() == 0 {
        seq![from]
    } else {
        route_nodes(adjacency, from, route.drop_last()).push(
            adjacency[route.last().0][route.last().1].node as int,
        )
    }
}

/// The keys of the nodes that a route passes.
pub open spec fn route_keys(
    nodes: Seq<u64>,
    adjacency: Seq<Seq<Edge>>,
    from: int,
    route: Seq<(int, int)>,
) -> Seq<u64> {
    Seq::new(
        route_nodes(adjacency, from, route).len(),
        |i: int| nodes[route_nodes(adjacency, from, route)[i]],
    )
}

/// No route from `from` to `to` weighs less than `weight`.
pub open spec fn none_lighter(adjacency: Seq<Seq<Edge>>, from: int, to: int, weight: int) -> bool {
    forall|route: Seq<(int, int)>| #[trigger]
        route_ok(adjacency, from, route, to) ==> route_weight(adjacency, route) >= weight
}

/// `route` is a shortest route from `from` to `to`.
pub open spec fn is_shortest(
    adjacency: Seq<Seq<Edge>>,
    from: int,
    route: Seq<(int, int)>,
    to: int,
) -> bool {
    route_ok(adjacency, from, route, to) && none_lighter(
        adjacency,
        from,
        to,
        route_weight(adjacency, route),
    )
}

/// A route weighs nothing or more.
pub proof fn lemma_route_weight_not_negative(adjacency: Seq<Seq<Edge>>, route: Seq<(int, int)>)
    ensures
        route_weight(adjacency, route) >= 0,
    decreases route.len(),
{
    if route.len() > 0 {
        lemma_route_weight_not_negative(adjacency, route.drop_last());
    }
}

/// A route passes one node more than it has steps, and ends where it leads.
pub proof fn lemma_route_nodes(
    adjacency: Seq<Seq<Edge>>,
    from: int,
    route: Seq<(int, int)>,
    to: int,
)
    requires
        route_ok(adjacency, from, route, to),
    ensures
        route_nodes(adjacency, from, route).len() == route.len() + 1,
        route_nodes(adjacency, from, route)[0] == from,
        route_nodes(adjacency, from, route).last() == to,
    decreases route.len(),
{
    if route.len() > 0 {
        lemma_route_nodes(adjacency, from, route.drop_last(), route.last().0);
    }
}

/// Every node that a route passes is a node of the graph.
pub proof fn lemma_route_nodes_in_range(
    adjacency: Seq<Seq<Edge>>,
    from: int,
    route: Seq<(int, int)>,
    to: int,
)
    requires
        route_ok(adjacency, from, route, to),
        forall|v: int, j: int|
            0 <= v < adjacency.len() && 0 <= j < adjacency[v].len() ==> (
            #[trigger] adjacency[v][j]).node < adjacency.len(),
    ensures
        forall|i: int|
            0 <= i < route_nodes(adjacency, from, route).len() ==> 0 <= #[trigger] route_nodes(
                adjacency,
                from,
                route,
            )[i] < adjacency.len(),
    decreases route.len(),
{
    if route.len() > 0 {
        lemma_route_nodes_in_range(adjacency, from, route.drop_last(), route.last().0);
        let shorter = route_nodes(adjacency, from, route.drop_last());
        let all = route_nodes(adjacency, from, route);
        assert(adjacency[route.last().0][route.last().1].node < adjacency.len());
        assert forall|i: int| 0 <= i < all.len() implies 0 <= #[trigger] all[i]
            < adjacency.len() by {
            if i < shorter.len() {
                assert(all[i] == shorter[i]);
            }
        }
    }
}

/// What the search knows while it runs, with the weights so far in `dist`
/// and the nodes it is done with in `closed`.
///
/// The start has weight 0. No route to a closed node is lighter than its
/// weight. Every edge of a closed node has been followed: its end weighs no
/// more than the node and the edge together. No closed node weighs more than
/// an open one. Of the node `pending`, which was closed last, the edges from
/// index `upto` on have not been followed yet, and no closed node weighs
/// more than it.
#[verifier::opaque]
pub open spec fn settled(
    adjacency: Seq<Seq<Edge>>,
    start: int,
    dist: Seq<int>,
    closed: Set<int>,
    pending: int,
    upto: int,
) -> bool {
    &&& dist.len() == adjacency.len()
    &&& 0 <= start < dist.len()
    &&& dist[start] == 0
    &&& forall|v: int| 0 <= v < dist.len() ==> 0 <= #[trigger] dist[v] <= limit()
    &&& forall|v: int, j: int|
        0 <= v < adjacency.len() && 0 <= j < adjacency[v].len() ==> (
        #[trigger] adjacency[v][j]).node < adjacency.len()
    &&& forall|v: int, route: Seq<(int, int)>|
        0 <= v < dist.len() && closed.contains(v) && #[trigger] route_ok(
            adjacency,
            start,
            route,
            v,
        ) ==> route_weight(adjacency, route) >= dist[v]
    &&& forall|c: int, j: int|
        0 <= c < dist.len() && closed.contains(c) && 0 <= j < adjacency[c].len() && (c != pending
            || j < upto) ==> dist[(#[trigger] adjacency[c][j]).node as int] <= dist[c]
            + adjacency[c][j].weight
    &&& forall|c: int, o: int|
        0 <= c < dist.len() && 0 <= o < dist.len() && closed.contains(c) && !closed.contains(o)
            ==> #[trigger] dist[c] <= #[trigger] dist[o]
    &&& 0 <= pending < dist.len() ==> closed.contains(pending) && forall|c: int|
        0 <= c < dist.len() && closed.contains(c) ==> #[trigger] dist[c] <= dist[pending]
}

/// While the search runs, no route is lighter than the weight of the closed
/// node it leads to, and no route to an open node is lighter than the
/// lightest open node.
pub proof fn lemma_route_bound(
    adjacency: Seq<Seq<Edge>>,
    start: int,
    dist: Seq<int>,
    closed: Set<int>,
    least: int,
    route: Seq<(int, int)>,
    to: int,
)
    requires
        settled(adjacency, start, dist, closed, -1, 0),
        0 <= least < dist.len(),
        !closed.contains(least),
        forall|o: int| 0 <= o < dist.len() && !closed.contains(o) ==> dist[least] <= #[trigger] dist[o],
        route_ok(adjacency, start, route, to),
    ensures
        0 <= to < dist.len(),
        route_weight(adjacency, route) >= (if closed.contains(to) {
            dist[to]
        } else {
            dist[least]
        }),
    decreases route.len(),
{
    reveal(settled);
    if route.len() == 0 {
        if !closed.contains(start) {
            assert(dist[least] <= dist[start]);
        }
    } else {
        let via = route.last().0;
        let edge = route.last().1;
        lemma_route_bound(adjacency, start, dist, closed, least, route.drop_last(), via);
        let target = adjacency[via][edge];
        assert(target.node < adjacency.len());
        if closed.contains(via) {
            assert(dist[target.node as int] <= dist[via] + target.weight);
            if !closed.contains(to) {
                assert(dist[least] <= dist[to]);
            }
        } else {
            if closed.contains(to) {
                assert(dist[to] <= dist[least]);
            }
        }
    }
}

/// The lightest open node can be closed: no route to it is lighter than its
/// weight.
pub proof fn lemma_close(
    adjacency: Seq<Seq<Edge>>,
    start: int,
    dist: Seq<int>,
    closed: Set<int>,
    least: int,
)
    requires
        settled(adjacency, start, dist, closed, -1, 0),
        0 <= least < dist.len(),
        !closed.contains(least),
        forall|o: int| 0 <= o < dist.len() && !closed.contains(o) ==> dist[least] <= #[trigger] dist[o],
    ensures
        settled(adjacency, start, dist, closed.insert(least), least, 0),
{
    reveal(settled);
    let wider = closed.insert(least);
    assert forall|v: int, route: Seq<(int, int)>|
        0 <= v < dist.len() && wider.contains(v) && #[trigger] route_ok(
            adjacency,
            start,
            route,
            v,
        ) implies route_weight(adjacency, route) >= dist[v] by {
        if v == least {
            lemma_route_bound(adjacency, start, dist, closed, least, route, v);
        }
    }
    assert forall|c: int, o: int|
        0 <= c < dist.len() && 0 <= o < dist.len() && wider.contains(c) && !wider.contains(
            o,
        ) implies #[trigger] dist[c] <= #[trigger] dist[o] by {
        if c != least {
            assert(dist[c] <= dist[least]);
        }
    }
    assert forall|c: int| 0 <= c < dist.len() && wider.contains(c) implies #[trigger] dist[c]
        <= dist[least] by {
        if c != least {
            assert(dist[c] <= dist[least]);
        }
    }
}

/// Following one more edge of the node that was closed last, and taking the
/// lighter weight for its end, keeps what the search knows.
pub proof fn lemma_relax(
    adjacency: Seq<Seq<Edge>>,
    start: int,
    dist: Seq<int>,
    closed: Set<int>,
    pending: int,
    upto: int,
)
    requires
        settled(adjacency, start, dist, closed, pending, upto),
        0 <= pending < dist.len(),
        0 <= upto < adjacency[pending].len(),
    ensures
        adjacency[pending][upto].node < dist.len(),
        dist[pending] + adjacency[pending][upto].weight < dist[adjacency[pending][upto].node as int]
            ==> !closed.contains(adjacency[pending][upto].node as int) && settled(
            adjacency,
            start,
            dist.update(
                adjacency[pending][upto].node as int,
                dist[pending] + adjacency[pending][upto].weight,
            ),
            closed,
            pending,
            upto + 1,
        ),
        dist[pending] + adjacency[pending][upto].weight >= dist[adjacency[pending][upto].node as int]
            ==> settled(adjacency, start, dist, closed, pending, upto + 1),
{
    reveal(settled);
    let edge = adjacency[pending][upto];
    let end = edge.node as int;
    let lighter = dist[pending] + edge.weight;
    assert(edge.node < adjacency.len());
    if lighter < dist[end] {
        let after = dist.update(end, lighter);
        if closed.contains(end) {
            assert(dist[end] <= dist[pending]);
        }
        assert(end != start);
        assert forall|v: int| 0 <= v < after.len() implies 0 <= #[trigger] after[v] <= limit() by {
            assert(0 <= dist[v] <= limit());
            assert(0 <= dist[pending] <= limit());
        }
        assert forall|v: int, route: Seq<(int, int)>|
            0 <= v < after.len() && closed.contains(v) && #[trigger] route_ok(
                adjacency,
                start,
                route,
                v,
            ) implies route_weight(adjacency, route) >= after[v] by {
            assert(after[v] == dist[v]);
        }
        assert forall|c: int, j: int|
            0 <= c < after.len() && closed.contains(c) && 0 <= j < adjacency[c].len() && (c
                != pending || j < upto + 1) implies after[(#[trigger] adjacency[c][j]).node as int]
            <= after[c] + adjacency[c][j].weight by {
            assert(after[c] == dist[c]);
            assert(adjacency[c][j].node < adjacency.len());
            let target = adjacency[c][j].node as int;
            assert(after[target] <= dist[target]);
            if c == pending && j == upto {
            } else {
                assert(dist[target] <= dist[c] + adjacency[c][j].weight);
            }
        }
        assert forall|c: int, o: int|
            0 <= c < after.len() && 0 <= o < after.len() && closed.contains(c) && !closed.contains(
                o,
            ) implies #[trigger] after[c] <= #[trigger] after[o] by {
            assert(after[c] == dist[c]);
            assert(dist[c] <= dist[pending]);
            if o != end {
                assert(dist[c] <= dist[o]);
            }
        }
        assert forall|c: int| 0 <= c < after.len() && closed.contains(c) implies #[trigger] after[c]
            <= after[pending] by {
            assert(dist[c] <= dist[pending]);
        }
    } else {
        assert forall|c: int, j: int|
            0 <= c < dist.len() && closed.contains(c) && 0 <= j < adjacency[c].len() && (c
                != pending || j < upto + 1) implies dist[(#[trigger] adjacency[c][j]).node as int]
            <= dist[c] + adjacency[c][j].weight by {
            if c == pending && j == upto {
            }
        }
    }
}

/// Once a closed node has weight `limit()`, or all its edges are followed,
/// none of its edges is left to follow.
pub proof fn lemma_all_followed(
    adjacency: Seq<Seq<Edge>>,
    start: int,
    dist: Seq<int>,
    closed: Set<int>,
    pending: int,
    upto: int,
)
    requires
        settled(adjacency, start, dist, closed, pending, upto),
        0 <= pending < dist.len(),
        upto >= adjacency[pending].len() || dist[pending] == limit(),
    ensures
        settled(adjacency, start, dist, closed, -1, 0),
{
    reveal(settled);
    assert forall|c: int, j: int|
        0 <= c < dist.len() && closed.contains(c) && 0 <= j < adjacency[c].len() implies dist[(
    #[trigger] adjacency[c][j]).node as int] <= dist[c] + adjacency[c][j].weight by {
        assert(adjacency[c][j].node < adjacency.len());
        assert(dist[adjacency[c][j].node as int] <= limit());
    }
}

/// How the search remembers the routes it has found: for every node with a
/// weight, a route of that weight. The route to the start has no step. Every
/// other route is the route to a closed node and one of its edges, and that
/// node is remembered as the parent.
#[verifier::opaque]
pub open spec fn traced(
    adjacency: Seq<Seq<Edge>>,
    start: int,
    dist: Seq<int>,
    ways: Seq<Seq<(int, int)>>,
    parent: Seq<Option<usize>>,
    closed: Set<int>,
) -> bool {
    &&& ways.len() == dist.len()
    &&& parent.len() == dist.len()
    &&& adjacency.len() == dist.len()
    &&& dist.len() <= usize::MAX
    &&& 0 <= start < dist.len()
    &&& ways[start].len() == 0
    &&& forall|v: int|
        0 <= v < dist.len() && dist[v] < limit() ==> {
            &&& route_ok(adjacency, start, #[trigger] ways[v], v)
            &&& route_weight(adjacency, ways[v]) == dist[v]
            &&& ways[v].len() == 0 ==> v == start
            &&& ways[v].len() > 0 ==> {
                &&& parent[v] == Some(ways[v].last().0 as usize)
                &&& closed.contains(ways[v].last().0)
                &&& dist[ways[v].last().0] < limit()
                &&& ways[v].drop_last() == ways[ways[v].last().0]
            }
            &&& passes_closed_once(adjacency, start, ways[v], closed)
        }
}

/// The route passes no node twice, and every node it passes before its end
/// is closed.
pub open spec fn passes_closed_once(
    adjacency: Seq<Seq<Edge>>,
    start: int,
    route: Seq<(int, int)>,
    closed: Set<int>,
) -> bool {
    &&& route_nodes(adjacency, start, route).no_duplicates()
    &&& forall|i: int|
        0 <= i < route.len() ==> closed.contains(
            #[trigger] route_nodes(adjacency, start, route)[i],
        )
}

/// Taking a lighter weight for the end of an edge of the node closed last,
/// and remembering the route through that node, keeps the routes in order.
pub proof fn lemma_trace_relax(
    adjacency: Seq<Seq<Edge>>,
    start: int,
    dist: Seq<int>,
    ways: Seq<Seq<(int, int)>>,
    parent: Seq<Option<usize>>,
    closed: Set<int>,
    pending: int,
    upto: int,
)
    requires
        settled(adjacency, start, dist, closed, pending, upto),
        traced(adjacency, start, dist, ways, parent, closed),
        0 <= pending < dist.len(),
        0 <= upto < adjacency[pending].len(),
        dist[pending] + adjacency[pending][upto].weight < dist[adjacency[pending][upto].node as int],
    ensures
        traced(
            adjacency,
            start,
            dist.update(
                adjacency[pending][upto].node as int,
                dist[pending] + adjacency[pending][upto].weight,
            ),
            ways.update(adjacency[pending][upto].node as int, ways[pending].push((pending, upto))),
            parent.update(adjacency[pending][upto].node as int, Some(pending as usize)),
            closed,
        ),
{
    reveal(settled);
    reveal(traced);
    lemma_relax(adjacency, start, dist, closed, pending, upto);
    let edge = adjacency[pending][upto];
    let end = edge.node as int;
    let lighter = dist[pending] + edge.weight;
    let dist2 = dist.update(end, lighter);
    let way = ways[pending].push((pending, upto));
    let ways2 = ways.update(end, way);
    let parent2 = parent.update(end, Some(pending as usize));
    assert(0 <= dist[end] <= limit());
    assert(dist[pending] < limit());
    assert(end != pending);
    assert(end != start);
    assert(way.drop_last() =~= ways[pending]);
    assert(way.last() == (pending, upto));
    assert forall|v: int| 0 <= v < dist2.len() && dist2[v] < limit() implies {
        &&& route_ok(adjacency, start, #[trigger] ways2[v], v)
        &&& route_weight(adjacency, ways2[v]) == dist2[v]
        &&& ways2[v].len() == 0 ==> v == start
        &&& ways2[v].len() > 0 ==> {
            &&& parent2[v] == Some(ways2[v].last().0 as usize)
            &&& closed.contains(ways2[v].last().0)
            &&& dist2[ways2[v].last().0] < limit()
            &&& ways2[v].drop_last() == ways2[ways2[v].last().0]
        }
        &&& passes_closed_once(adjacency, start, ways2[v], closed)
    } by {
        if v == end {
            assert(ways2[v] == way);
            lemma_route_nodes(adjacency, start, ways[pending], pending);
            let shorter = route_nodes(adjacency, start, ways[pending]);
            let longer = route_nodes(adjacency, start, way);
            assert(longer == shorter.push(end));
            assert(passes_closed_once(adjacency, start, ways[pending], closed));
            assert(!closed.contains(end));
            assert forall|i: int| 0 <= i < way.len() implies closed.contains(
                #[trigger] longer[i],
            ) by {
                assert(longer[i] == shorter[i]);
                if i == shorter.len() - 1 {
                    assert(shorter[i] == pending);
                }
            }
            assert forall|i: int, j: int|
                0 <= i < longer.len() && 0 <= j < longer.len() && i != j implies longer[i]
                != longer[j] by {
                if i < shorter.len() {
                    assert(longer[i] == shorter[i]);
                    assert(closed.contains(longer[i]));
                }
                if j < shorter.len() {
                    assert(longer[j] == shorter[j]);
                    assert(closed.contains(longer[j]));
                }
            }
        } else {
            assert(ways2[v] == ways[v]);
            assert(dist2[v] == dist[v]);
            if ways[v].len() > 0 {
                let via = ways[v].last().0;
                assert(closed.contains(via));
                assert(via != end);
            }
        }
    }
}

/// Closing one more node keeps the routes in order.
pub proof fn lemma_trace_close(
    adjacency: Seq<Seq<Edge>>,
    start: int,
    dist: Seq<int>,
    ways: Seq<Seq<(int, int)>>,
    parent: Seq<Option<usize>>,
    closed: Set<int>,
    least: int,
)
    requires
        traced(adjacency, start, dist, ways, parent, closed),
    ensures
        traced(adjacency, start, dist, ways, parent, closed.insert(least)),
{
    reveal(traced);
    let wider = closed.insert(least);
    assert forall|v: int| 0 <= v < dist.len() && dist[v] < limit() implies {
        &&& route_ok(adjacency, start, #[trigger] ways[v], v)
        &&& route_weight(adjacency, ways[v]) == dist[v]
        &&& ways[v].len() == 0 ==> v == start
        &&& ways[v].len() > 0 ==> {
            &&& parent[v] == Some(ways[v].last().0 as usize)
            &&& wider.contains(ways[v].last().0)
            &&& dist[ways[v].last().0] < limit()
            &&& ways[v].drop_last() == ways[ways[v].last().0]
        }
        &&& passes_closed_once(adjacency, start, ways[v], wider)
    } by {
        if ways[v].len() > 0 {
            assert(closed.contains(ways[v].last().0));
        }
        assert(passes_closed_once(adjacency, start, ways[v], closed));
    }
}

/// The route to a node goes through the parent of the node: it passes the
/// nodes of the route to the parent, then the node.
pub proof fn lemma_trace_back(
    adjacency: Seq<Seq<Edge>>,
    start: int,
    dist: Seq<int>,
    ways: Seq<Seq<(int, int)>>,
    parent: Seq<Option<usize>>,
    closed: Set<int>,
    at: int,
)
    requires
        traced(adjacency, start, dist, ways, parent, closed),
        0 <= at < dist.len(),
        dist[at] < limit(),
        at != start,
    ensures
        parent[at] is Some,
        0 <= parent[at].unwrap() < dist.len(),
        dist[parent[at].unwrap() as int] < limit(),
        ways[at].len() == ways[parent[at].unwrap() as int].len() + 1,
        route_nodes(adjacency, start, ways[at]) == route_nodes(
            adjacency,
            start,
            ways[parent[at].unwrap() as int],
        ).push(at),
        route_nodes(adjacency, start, ways[parent[at].unwrap() as int]).last()
            == parent[at].unwrap(),
{
    reveal(traced);
    let via = ways[at].last().0;
    assert(route_ok(adjacency, start, ways[at], at));
    assert(ways[at].len() > 0);
    assert(0 <= via < adjacency.len());
    lemma_route_nodes(adjacency, start, ways[via], via);
}

/// Before the search has closed a node, it knows the start and nothing else.
pub proof fn lemma_search_begins(
    adjacency: Seq<Seq<Edge>>,
    start: int,
    dist: Seq<int>,
    parent: Seq<Option<usize>>,
)
    requires
        dist.len() == adjacency.len(),
        parent.len() == dist.len(),
        dist.len() <= usize::MAX,
        0 <= start < dist.len(),
        dist[start] == 0,
        forall|v: int| 0 <= v < dist.len() && v != start ==> #[trigger] dist[v] == limit(),
        forall|v: int, j: int|
            0 <= v < adjacency.len() && 0 <= j < adjacency[v].len() ==> (
            #[trigger] adjacency[v][j]).node < adjacency.len(),
    ensures
        settled(adjacency, start, dist, Set::empty(), -1, 0),
        traced(
            adjacency,
            start,
            dist,
            Seq::new(dist.len(), |i: int| Seq::empty()),
            parent,
            Set::empty(),
        ),
{
    reveal(settled);
    reveal(traced);
}

/// No route to a closed node is lighter than the weight of the node.
pub proof fn lemma_closed_is_final(
    adjacency: Seq<Seq<Edge>>,
    start: int,
    dist: Seq<int>,
    closed: Set<int>,
    pending: int,
    upto: int,
    at: int,
)
    requires
        settled(adjacency, start, dist, closed, pending, upto),
        0 <= at < dist.len(),
        closed.contains(at),
    ensures
        none_lighter(adjacency, start, at, dist[at]),
        0 <= dist[at] <= limit(),
{
    reveal(settled);
}

/// The route that the search remembers for a node has the weight of the
/// node.
pub proof fn lemma_traced_route(
    adjacency: Seq<Seq<Edge>>,
    start: int,
    dist: Seq<int>,
    ways: Seq<Seq<(int, int)>>,
    parent: Seq<Option<usize>>,
    closed: Set<int>,
    at: int,
)
    requires
        traced(adjacency, start, dist, ways, parent, closed),
        0 <= at < dist.len(),
        dist[at] < limit(),
    ensures
        route_ok(adjacency, start, ways[at], at),
        route_weight(adjacency, ways[at]) == dist[at],
        route_nodes(adjacency, start, ways[at]).no_duplicates(),
        ways[start].len() == 0,
        ways.len() == dist.len(),
{
    reveal(traced);
}

/// One step back along the route to `end`: from the node `here`, which the
/// route passes, to its parent, which the route passes right before it.
pub proof fn lemma_step_back(
    adjacency: Seq<Seq<Edge>>,
    start: int,
    dist: Seq<int>,
    ways: Seq<Seq<(int, int)>>,
    parent: Seq<Option<usize>>,
    closed: Set<int>,
    here: int,
    passed: Seq<int>,
)
    requires
        traced(adjacency, start, dist, ways, parent, closed),
        0 <= here < dist.len(),
        dist[here] < limit(),
        here != start,
        ways[here].len() + 1 <= passed.len(),
        route_nodes(adjacency, start, ways[here]) == passed.subrange(
            0,
            ways[here].len() as int + 1,
        ),
    ensures
        parent[here] is Some,
        0 <= parent[here].unwrap() < dist.len(),
        dist[parent[here].unwrap() as int] < limit(),
        ways[here].len() == ways[parent[here].unwrap() as int].len() + 1,
        route_nodes(adjacency, start, ways[parent[here].unwrap() as int]) == passed.subrange(
            0,
            ways[here].len() as int,
        ),
        passed[ways[here].len() - 1] == parent[here].unwrap(),
{
    lemma_trace_back(adjacency, start, dist, ways, parent, closed, here);
    let above = parent[here].unwrap() as int;
    let shorter = route_nodes(adjacency, start, ways[above]);
    let longer = route_nodes(adjacency, start, ways[here]);
    let steps = ways[here].len() as int;
    assert(shorter =~= longer.drop_last());
    assert(shorter =~= passed.subrange(0, steps));
    assert(shorter.last() == passed.subrange(0, steps)[steps - 1]);
}

} // verus!
