//! The devices as a directed graph: which device reaches which, and at what
//! weight.
use vstd::prelude::*;
use std::collections::HashSet;
use vstd::std_specs::iter::IteratorSpec;
use crate::graph::routes::{is_shortest, lemma_all_followed, lemma_close, lemma_closed_is_final};
use crate::graph::routes::{lemma_relax, lemma_route_nodes, lemma_route_nodes_in_range};
use crate::graph::routes::{lemma_search_begins, lemma_step_back};
use crate::graph::routes::{lemma_trace_close, lemma_trace_relax, lemma_traced_route, limit, none_lighter};
use crate::graph::routes::{route_keys, route_nodes, route_weight, settled, traced};
use crate::graph::weight::TentativeWeight;

pub mod routes;
pub mod weight;

verus! {

/// An edge to the node at index `node`.
#[derive(Clone, Copy, Debug)]
pub struct Edge {
    pub weight: u32,
    pub node: usize,
}

/// The index of the first node with this key.
pub open spec fn position_of(nodes: Seq<u64>, key: u64) -> Option<int>
    decreases nodes.len(),
{
    if nodes.len() == 0 {
        None
    } else if nodes.last() == key && position_of(nodes.drop_last(), key) is None {
        Some(nodes.len() - 1)
    } else {
        position_of(nodes.drop_last(), key)
    }
}

/// The position of a key is the first index that holds it.
pub proof fn lemma_position_of(nodes: Seq<u64>, key: u64)
    ensures
        match position_of(nodes, key) {
            Some(i) => 0 <= i < nodes.len() && nodes[i] == key && forall|j: int|
                0 <= j < i ==> nodes[j] != key,
            None => forall|j: int| 0 <= j < nodes.len() ==> nodes[j] != key,
        },
    decreases nodes.len(),
{
    if nodes.len() > 0 {
        let front = nodes.drop_last();
        lemma_position_of(front, key);
        match position_of(front, key) {
            Some(i) => {
                assert(front[i] == nodes[i]);
                assert forall|j: int| 0 <= j < i implies nodes[j] != key by {
                    assert(front[j] == nodes[j]);
                }
            },
            None => {
                assert forall|j: int| 0 <= j < nodes.len() - 1 implies nodes[j] != key by {
                    assert(front[j] == nodes[j]);
                }
            },
        }
    }
}

/// An index that holds the key and has it nowhere before is its position.
pub proof fn lemma_position_is(nodes: Seq<u64>, key: u64, at: int)
    requires
        0 <= at < nodes.len(),
        nodes[at] == key,
        forall|j: int| 0 <= j < at ==> nodes[j] != key,
    ensures
        position_of(nodes, key) == Some(at),
{
    lemma_position_of(nodes, key);
}

/// The edges that a list of weights and keys stands for: one edge for every
/// key that is the key of a node, in the order of the list, to the first
/// node with that key.
pub open spec fn resolved(nodes: Seq<u64>, edges: Seq<(u32, u64)>) -> Seq<Edge>
    decreases edges.len(),
{
    if edges.len() == 0 {
        Seq::empty()
    } else {
        resolved(nodes, edges.drop_last()) + match position_of(nodes, edges.last().1) {
            Some(to) => seq![Edge { weight: edges.last().0, node: to as usize }],
            None => Seq::empty(),
        }
    }
}

/// The number of edges in all the lists together.
pub open spec fn total_edges(adjacency: Seq<Seq<Edge>>) -> int
    decreases adjacency.len(),
{
    if adjacency.len() == 0 {
        0
    } else {
        total_edges(adjacency.drop_last()) + adjacency.last().len()
    }
}

/// A walk of at least one and at most `degree` edges leads from the node at
/// index `from` to the node at index `to`.
pub open spec fn reaches(adjacency: Seq<Seq<Edge>>, from: int, degree: nat, to: usize) -> bool
    decreases degree,
{
    &&& degree > 0
    &&& 0 <= from < adjacency.len()
    &&& exists|j: int|
        0 <= j < adjacency[from].len() && ((#[trigger] adjacency[from][j]).node == to || reaches(
            adjacency,
            adjacency[from][j].node as int,
            (degree - 1) as nat,
            to,
        ))
}

/// Such a walk may begin with the `j`th edge of the node at `from`.
pub open spec fn first_step(
    adjacency: Seq<Seq<Edge>>,
    from: int,
    degree: nat,
    j: int,
    to: usize,
) -> bool {
    degree > 0 && 0 <= from < adjacency.len() && 0 <= j < adjacency[from].len() && (
    adjacency[from][j].node == to || reaches(
        adjacency,
        adjacency[from][j].node as int,
        (degree - 1) as nat,
        to,
    ))
}

/// A walk reaches a node exactly if it may begin with one of the edges.
pub proof fn lemma_reaches_by_first_step(
    adjacency: Seq<Seq<Edge>>,
    from: int,
    degree: nat,
    to: usize,
)
    ensures
        reaches(adjacency, from, degree, to) <==> exists|j: int| #[trigger]
            first_step(adjacency, from, degree, j, to),
{
    if reaches(adjacency, from, degree, to) {
        let j = choose|j: int|
            0 <= j < adjacency[from].len() && ((#[trigger] adjacency[from][j]).node == to
                || reaches(adjacency, adjacency[from][j].node as int, (degree - 1) as nat, to));
        assert(first_step(adjacency, from, degree, j, to));
    }
    if exists|j: int| #[trigger] first_step(adjacency, from, degree, j, to) {
        let j = choose|j: int| #[trigger] first_step(adjacency, from, degree, j, to);
        assert(0 <= j < adjacency[from].len() && (adjacency[from][j].node == to || reaches(
            adjacency,
            adjacency[from][j].node as int,
            (degree - 1) as nat,
            to,
        )));
    }
}

/// The graph: the keys of its nodes, and for every node the edges that
/// leave it.
pub struct InternetOfThings {
    adjacency_list: Vec<Vec<Edge>>,
    nodes: Vec<u64>,
}

impl InternetOfThings {
    /// The keys of the nodes, by index.
    pub closed spec fn spec_nodes(self) -> Seq<u64> {
        self.nodes@
    }

    /// The edges that leave each node, by the index of the node.
    pub closed spec fn spec_adjacency(self) -> Seq<Seq<Edge>> {
        Seq::new(self.adjacency_list@.len(), |i: int| self.adjacency_list@[i]@)
    }

    /// The invariant of the graph: every node has its list of edges, and
    /// every edge leads to a node.
    pub open spec fn well_formed(self) -> bool {
        &&& self.spec_adjacency().len() == self.spec_nodes().len()
        &&& forall|i: int, j: int|
            0 <= i < self.spec_adjacency().len() && 0 <= j < self.spec_adjacency()[i].len()
                ==> (#[trigger] self.spec_adjacency()[i][j]).node < self.spec_nodes().len()
    }

    /// A graph without nodes.
    pub fn new() -> (graph: InternetOfThings)
        ensures
            graph.well_formed(),
            graph.spec_nodes() == Seq::<u64>::empty(),
            graph.spec_adjacency() == Seq::<Seq<Edge>>::empty(),
    {
        let graph = InternetOfThings { adjacency_list: Vec::new(), nodes: Vec::new() };
        assert(graph.spec_adjacency() =~= Seq::<Seq<Edge>>::empty());
        graph
    }

    /// The index of the first node with this key.
    pub fn get_node_index(&self, node: u64) -> (index: Option<usize>)
        ensures
            match index {
                Some(i) => position_of(self.spec_nodes(), node) == Some(i as int),
                None => position_of(self.spec_nodes(), node) is None,
            },
    {
        let mut i: usize = 0;
        while i < self.nodes.len()
            invariant
                i <= self.nodes@.len(),
                forall|j: int| 0 <= j < i ==> self.nodes@[j] != node,
            decreases self.nodes@.len() - i,
        {
            if self.nodes[i] == node {
                proof {
                    lemma_position_is(self.nodes@, node, i as int);
                }
                return Some(i);
            }
            i += 1;
        }
        proof {
            lemma_position_of(self.nodes@, node);
        }
        None
    }

    /// The number of edges.
    pub fn edges(&self) -> (count: u64)
        requires
            total_edges(self.spec_adjacency()) <= u64::MAX,
        ensures
            count == total_edges(self.spec_adjacency()),
    {
        let ghost adjacency = self.spec_adjacency();
        let mut count: u64 = 0;
        let mut i: usize = 0;
        while i < self.adjacency_list.len()
            invariant
                i <= self.adjacency_list@.len(),
                adjacency == self.spec_adjacency(),
                count == total_edges(adjacency.subrange(0, i as int)),
                total_edges(adjacency) <= u64::MAX,
            decreases self.adjacency_list@.len() - i,
        {
            proof {
                let longer = adjacency.subrange(0, i + 1);
                assert(longer.drop_last() =~= adjacency.subrange(0, i as int));
                assert(longer.last() == self.adjacency_list@[i as int]@);
                lemma_total_edges_grows(adjacency, i + 1);
            }
            count = count + self.adjacency_list[i].len() as u64;
            i += 1;
        }
        proof {
            assert(adjacency.subrange(0, i as int) =~= adjacency);
        }
        count
    }

    /// The number of nodes.
    pub fn nodes(&self) -> (count: usize)
        ensures
            count == self.spec_nodes().len(),
    {
        self.nodes.len()
    }

    /// Replaces the nodes. No edge is left.
    pub fn set_nodes(&mut self, nodes: Vec<u64>)
        ensures
            final(self).well_formed(),
            final(self).spec_nodes() == nodes@,
            final(self).spec_adjacency() == Seq::new(nodes@.len(), |i: int| Seq::<Edge>::empty()),
    {
        self.nodes = nodes;
        let mut adjacency_list: Vec<Vec<Edge>> = Vec::new();
        let mut i: usize = 0;
        while i < self.nodes.len()
            invariant
                i <= self.nodes@.len(),
                adjacency_list@.len() == i,
                forall|j: int| 0 <= j < i ==> (#[trigger] adjacency_list@[j])@.len() == 0,
            decreases self.nodes@.len() - i,
        {
            adjacency_list.push(Vec::new());
            i += 1;
        }
        self.adjacency_list = adjacency_list;
        proof {
            assert(self.spec_adjacency() =~= Seq::new(
                nodes@.len(),
                |i: int| Seq::<Edge>::empty(),
            )) by {
                assert forall|j: int| 0 <= j < nodes@.len() implies #[trigger] self.spec_adjacency()[j]
                    =~= Seq::<Edge>::empty() by {
                    assert(self.adjacency_list@[j]@.len() == 0);
                }
            }
        }
    }

    /// Replaces the edges that leave the node with the key `from`. Of the
    /// edges given, those are kept whose key is the key of a node. Where no
    /// node has the key `from` yet, it becomes a new node.
    pub fn set_edges(&mut self, from: u64, edges: Vec<(u32, u64)>)
        requires
            old(self).well_formed(),
        ensures
            final(self).well_formed(),
            match position_of(old(self).spec_nodes(), from) {
                Some(i) => {
                    &&& final(self).spec_nodes() == old(self).spec_nodes()
                    &&& final(self).spec_adjacency() == old(self).spec_adjacency().update(
                        i,
                        resolved(old(self).spec_nodes(), edges@),
                    )
                },
                None => {
                    &&& final(self).spec_nodes() == old(self).spec_nodes().push(from)
                    &&& final(self).spec_adjacency() == old(self).spec_adjacency().push(
                        resolved(old(self).spec_nodes(), edges@),
                    )
                },
            },
    {
        let mut kept: Vec<Edge> = Vec::new();
        let mut k: usize = 0;
        while k < edges.len()
            invariant
                k <= edges@.len(),
                *self == *old(self),
                kept@ == resolved(self.spec_nodes(), edges@.subrange(0, k as int)),
                forall|j: int| 0 <= j < kept@.len() ==> (#[trigger] kept@[j]).node < self.nodes@.len(),
            decreases edges@.len() - k,
        {
            let e = &edges[k];
            proof {
                let longer = edges@.subrange(0, k + 1);
                assert(longer.drop_last() =~= edges@.subrange(0, k as int));
                assert(longer.last() == edges@[k as int]);
                lemma_position_of(self.nodes@, e.1);
            }
            if let Some(to) = self.get_node_index(e.1) {
                kept.push(Edge { weight: e.0, node: to });
            }
            k += 1;
        }
        proof {
            assert(edges@.subrange(0, k as int) =~= edges@);
            lemma_position_of(self.nodes@, from);
        }
        let ghost before = self.spec_adjacency();
        match self.get_node_index(from) {
            Some(i) => {
                self.adjacency_list[i] = kept;
                proof {
                    assert(self.spec_adjacency() =~= before.update(i as int, kept@));
                    assert forall|a: int, b: int|
                        0 <= a < self.spec_adjacency().len() && 0 <= b
                            < self.spec_adjacency()[a].len() implies (
                    #[trigger] self.spec_adjacency()[a][b]).node < self.spec_nodes().len() by {
                        if a != i {
                            assert(self.spec_adjacency()[a][b] == before[a][b]);
                        }
                    }
                }
            },
            None => {
                self.nodes.push(from);
                self.adjacency_list.push(kept);
                proof {
                    assert(self.spec_adjacency() =~= before.push(kept@));
                    assert forall|a: int, b: int|
                        0 <= a < self.spec_adjacency().len() && 0 <= b
                            < self.spec_adjacency()[a].len() implies (
                    #[trigger] self.spec_adjacency()[a][b]).node < self.spec_nodes().len() by {
                        if a < before.len() {
                            assert(self.spec_adjacency()[a][b] == before[a][b]);
                        }
                    }
                }
            },
        }
    }
}

impl InternetOfThings {
    /// The keys of the nodes that a walk of at least one and at most
    /// `degree` edges reaches from the first node with the key `from`;
    /// `None` where no node has that key.
    pub fn connected(&self, from: u64, degree: usize) -> (neighbours: Option<HashSet<u64>>)
        requires
            self.well_formed(),
        ensures
            match position_of(self.spec_nodes(), from) {
                None => neighbours is None,
                Some(i) => neighbours is Some && forall|key: u64|
                    #![trigger neighbours.unwrap()@.contains(key)]
                    neighbours.unwrap()@.contains(key) <==> exists|to: usize|
                        #![trigger reaches(self.spec_adjacency(), i, degree as nat, to)]
                        reaches(self.spec_adjacency(), i, degree as nat, to) && to
                            < self.spec_nodes().len() && self.spec_nodes()[to as int] == key,
            },
    {
        broadcast use vstd::std_specs::hash::group_hash_axioms;

        match self.get_node_index(from) {
            None => None,
            Some(i) => {
                proof {
                    lemma_position_of(self.nodes@, from);
                }
                let reached = self.connected_r(i, degree);
                let mut keys: HashSet<u64> = HashSet::new();
                let ghost all = vstd::std_specs::hash::spec_hash_keys_iter(
                    &reached,
                ).remaining().unref();
                for n in iter: reached.iter()
                    invariant
                        self.well_formed(),
                        iter.seq().unref() == all,
                        all.to_set() == reached@,
                        forall|to: usize|
                            reached@.contains(to) ==> to < self.nodes@.len(),
                        forall|key: u64|
                            #![trigger keys@.contains(key)]
                            keys@.contains(key) <==> exists|j: int|
                                #![trigger all[j]]
                                0 <= j < iter.index() && all[j] < self.nodes@.len() && self.nodes@[all[j] as int]
                                    == key,
                {
                    let ghost at = iter.index();
                    let ghost before = keys@;
                    proof {
                        assert(*iter.seq()[at] == all[at]);
                        assert(all.contains(all[at]));
                        assert(all.to_set().contains(all[at]));
                    }
                    keys.insert(self.nodes[*n]);
                    proof {
                        assert forall|key: u64| #![trigger keys@.contains(key)]
                            keys@.contains(key) <==> exists|j: int|
                                #![trigger all[j]]
                                0 <= j < at + 1 && all[j] < self.nodes@.len() && self.nodes@[all[j] as int]
                                    == key by {
                            if before.contains(key) {
                                let j = choose|j: int|
                                    #![trigger all[j]]
                                    0 <= j < at && all[j] < self.nodes@.len() && self.nodes@[all[j] as int]
                                        == key;
                                assert(0 <= j < at + 1 && all[j] < self.nodes@.len()
                                    && self.nodes@[all[j] as int] == key);
                            }
                            if key == self.nodes@[all[at] as int] {
                                assert(0 <= at < at + 1 && all[at] < self.nodes@.len()
                                    && self.nodes@[all[at] as int] == key);
                            }
                        }
                    }
                }
                proof {
                    let adjacency = self.spec_adjacency();
                    assert forall|key: u64| #![trigger keys@.contains(key)]
                        keys@.contains(key) <==> exists|to: usize|
                            #![trigger reaches(adjacency, i as int, degree as nat, to)]
                            reaches(adjacency, i as int, degree as nat, to) && to
                                < self.spec_nodes().len() && self.spec_nodes()[to as int] == key by {
                        if keys@.contains(key) {
                            let j = choose|j: int|
                                #![trigger all[j]]
                                0 <= j < all.len() && all[j] < self.nodes@.len()
                                    && self.nodes@[all[j] as int] == key;
                            assert(all.contains(all[j]));
                            assert(all.to_set().contains(all[j]));
                            assert(reaches(adjacency, i as int, degree as nat, all[j]));
                        }
                        if exists|to: usize|
                            #![trigger reaches(adjacency, i as int, degree as nat, to)]
                            reaches(adjacency, i as int, degree as nat, to) && to
                                < self.spec_nodes().len() && self.spec_nodes()[to as int] == key {
                            let to = choose|to: usize|
                                #![trigger reaches(adjacency, i as int, degree as nat, to)]
                                reaches(adjacency, i as int, degree as nat, to) && to
                                    < self.spec_nodes().len() && self.spec_nodes()[to as int]
                                    == key;
                            assert(reached@.contains(to));
                            assert(all.to_set().contains(to));
                            assert(all.contains(to));
                            let j = choose|j: int| 0 <= j < all.len() && all[j] == to;
                            assert(0 <= j < all.len() && all[j] < self.nodes@.len()
                                && self.nodes@[all[j] as int] == key);
                        }
                    }
                }
                Some(keys)
            },
        }
    }

    /// The indices of the nodes that a walk of at least one and at most
    /// `degree` edges reaches from the node at index `from`.
    pub fn connected_r(&self, from: usize, degree: usize) -> (reached: HashSet<usize>)
        requires
            self.well_formed(),
            from < self.spec_nodes().len(),
        ensures
            forall|to: usize|
                #![trigger reached@.contains(to)]
                #![trigger reaches(self.spec_adjacency(), from as int, degree as nat, to)]
                reached@.contains(to) <==> reaches(
                    self.spec_adjacency(),
                    from as int,
                    degree as nat,
                    to,
                ),
            forall|to: usize| reached@.contains(to) ==> to < self.spec_nodes().len(),
        decreases degree,
    {
        broadcast use vstd::std_specs::hash::group_hash_axioms;

        let ghost adjacency = self.spec_adjacency();
        let mut reached: HashSet<usize> = HashSet::new();
        if degree > 0 {
            let edges = &self.adjacency_list[from];
            let mut j: usize = 0;
            while j < edges.len()
                invariant
                    j <= edges@.len(),
                    self.well_formed(),
                    from < self.nodes@.len(),
                    adjacency == self.spec_adjacency(),
                    edges@ == adjacency[from as int],
                    degree > 0,
                    forall|to: usize|
                        #![trigger reached@.contains(to)]
                        reached@.contains(to) <==> exists|k: int|
                            0 <= k < j && #[trigger] first_step(
                                adjacency,
                                from as int,
                                degree as nat,
                                k,
                                to,
                            ),
                    forall|to: usize| reached@.contains(to) ==> to < self.nodes@.len(),
                decreases edges@.len() - j,
            {
                let e = &edges[j];
                proof {
                    assert(adjacency[from as int][j as int] == *e);
                    assert(e.node < self.nodes@.len());
                }
                let mut set = self.connected_r(e.node, degree - 1);
                set.insert(e.node);
                let ghost so_far = reached@;
                let ghost all = vstd::std_specs::hash::spec_hash_keys_iter(&set).remaining().unref();
                for v in iter: set.iter()
                    invariant
                        iter.seq().unref() == all,
                        all.to_set() == set@,
                        forall|to: usize|
                            #![trigger reached@.contains(to)]
                            reached@.contains(to) <==> so_far.contains(to) || exists|k: int|
                                #![trigger all[k]]
                                0 <= k < iter.index() && all[k] == to,
                {
                    let ghost at = iter.index();
                    let ghost before = reached@;
                    proof {
                        assert(*iter.seq()[at] == all[at]);
                    }
                    reached.insert(*v);
                    proof {
                        assert forall|to: usize| #![trigger reached@.contains(to)]
                            reached@.contains(to) <==> so_far.contains(to) || exists|k: int|
                                #![trigger all[k]]
                                0 <= k < at + 1 && all[k] == to by {
                            if before.contains(to) && !so_far.contains(to) {
                                let k = choose|k: int| #![trigger all[k]] 0 <= k < at && all[k] == to;
                                assert(0 <= k < at + 1 && all[k] == to);
                            }
                            if to == all[at] {
                                assert(0 <= at < at + 1 && all[at] == to);
                            }
                        }
                    }
                }
                proof {
                    assert forall|to: usize| #![trigger reached@.contains(to)]
                        reached@.contains(to) <==> exists|k: int|
                            0 <= k < j + 1 && #[trigger] first_step(
                                adjacency,
                                from as int,
                                degree as nat,
                                k,
                                to,
                            ) by {
                        let step = first_step(adjacency, from as int, degree as nat, j as int, to);
                        assert(set@.contains(to) <==> step);
                        assert(set@.contains(to) <==> all.to_set().contains(to));
                        if set@.contains(to) {
                            assert(all.contains(to));
                            let k = choose|k: int| 0 <= k < all.len() && all[k] == to;
                            assert(0 <= k < all.len() && all[k] == to);
                        }
                        if exists|k: int| #![trigger all[k]] 0 <= k < all.len() && all[k] == to {
                            let k = choose|k: int| #![trigger all[k]] 0 <= k < all.len() && all[k] == to;
                            assert(all.contains(all[k]));
                        }
                        if so_far.contains(to) {
                            let k = choose|k: int|
                                0 <= k < j && #[trigger] first_step(
                                    adjacency,
                                    from as int,
                                    degree as nat,
                                    k,
                                    to,
                                );
                            assert(0 <= k < j + 1 && first_step(
                                adjacency,
                                from as int,
                                degree as nat,
                                k,
                                to,
                            ));
                        }
                        if step {
                            assert(0 <= j < j + 1 && first_step(
                                adjacency,
                                from as int,
                                degree as nat,
                                j as int,
                                to,
                            ));
                        }
                    }
                    assert forall|to: usize| reached@.contains(to) implies to
                        < self.nodes@.len() by {
                        if !so_far.contains(to) {
                            assert(set@.contains(to));
                        }
                    }
                }
                j += 1;
            }
            proof {
                assert forall|to: usize| #![trigger reached@.contains(to)]
                    reached@.contains(to) <==> reaches(
                        adjacency,
                        from as int,
                        degree as nat,
                        to,
                    ) by {
                    lemma_reaches_by_first_step(adjacency, from as int, degree as nat, to);
                    if reached@.contains(to) {
                        let k = choose|k: int|
                            0 <= k < j && #[trigger] first_step(
                                adjacency,
                                from as int,
                                degree as nat,
                                k,
                                to,
                            );
                        assert(first_step(adjacency, from as int, degree as nat, k, to));
                    }
                    if reaches(adjacency, from as int, degree as nat, to) {
                        let k = choose|k: int| #[trigger]
                            first_step(adjacency, from as int, degree as nat, k, to);
                        assert(0 <= k < j && first_step(
                            adjacency,
                            from as int,
                            degree as nat,
                            k,
                            to,
                        ));
                    }
                }
            }
        } else {
            proof {
                assert forall|to: usize| #![trigger reached@.contains(to)]
                    reached@.contains(to) <==> reaches(
                        adjacency,
                        from as int,
                        degree as nat,
                        to,
                    ) by {}
            }
        }
        reached
    }
}

/// The weights as numbers.
pub open spec fn values(weights: Seq<TentativeWeight>) -> Seq<int> {
    Seq::new(weights.len(), |i: int| weights[i].value())
}

/// The place, in the list `nodes`, of a node that has the least weight: of
/// several, the first.
pub fn min_index(weights: &Vec<TentativeWeight>, nodes: &Vec<usize>) -> (place: usize)
    requires
        nodes@.len() > 0,
        forall|i: int| 0 <= i < nodes@.len() ==> #[trigger] nodes@[i] < weights@.len(),
    ensures
        place < nodes@.len(),
        forall|i: int|
            0 <= i < nodes@.len() ==> weights@[nodes@[place as int] as int].value()
                <= #[trigger] weights@[nodes@[i] as int].value(),
        forall|i: int|
            0 <= i < place ==> weights@[nodes@[place as int] as int].value()
                < #[trigger] weights@[nodes@[i] as int].value(),
{
    let mut min_weight: (TentativeWeight, usize) = (weights[nodes[0]], 0);
    let mut i: usize = 0;
    while i < nodes.len()
        invariant
            i <= nodes@.len(),
            nodes@.len() > 0,
            forall|k: int| 0 <= k < nodes@.len() ==> #[trigger] nodes@[k] < weights@.len(),
            min_weight.1 < nodes@.len(),
            min_weight.0 == weights@[nodes@[min_weight.1 as int] as int],
            forall|k: int|
                0 <= k < i ==> min_weight.0.value() <= #[trigger] weights@[nodes@[k] as int].value(),
            forall|k: int|
                0 <= k < min_weight.1 ==> min_weight.0.value()
                    < #[trigger] weights@[nodes@[k] as int].value(),
            min_weight.1 <= i,
        decreases nodes@.len() - i,
    {
        let node = nodes[i];
        if weights[node] < min_weight.0 {
            min_weight = (weights[node], i);
        }
        i += 1;
    }
    min_weight.1
}

impl InternetOfThings {
    /// The lightest route from the first node with the key `from` to the
    /// first node with the key `to`: its weight and the keys of the nodes it
    /// passes, none of them twice. `None` where one of the keys is no node,
    /// or where no route has a weight that fits 32 bits.
    pub fn shortest_path(&self, from: u64, to: u64) -> (found: Option<(u32, Vec<u64>)>)
        requires
            self.well_formed(),
        ensures
            match (
                position_of(self.spec_nodes(), from),
                position_of(self.spec_nodes(), to),
            ) {
                (Some(start), Some(end)) => match found {
                    Some((cost, path)) => exists|route: Seq<(int, int)>|
                        #![trigger is_shortest(self.spec_adjacency(), start, route, end)]
                        is_shortest(self.spec_adjacency(), start, route, end) && route_weight(
                            self.spec_adjacency(),
                            route,
                        ) == cost && path@ == route_keys(
                            self.spec_nodes(),
                            self.spec_adjacency(),
                            start,
                            route,
                        ) && route_nodes(self.spec_adjacency(), start, route).no_duplicates(),
                    None => none_lighter(self.spec_adjacency(), start, end, limit()),
                },
                _ => found is None,
            },
    {
        let src = match self.get_node_index(from) {
            Some(i) => i,
            None => {
                return None;
            },
        };
        let dest = match self.get_node_index(to) {
            Some(i) => i,
            None => {
                return None;
            },
        };
        proof {
            lemma_position_of(self.nodes@, from);
            lemma_position_of(self.nodes@, to);
        }
        let ghost adjacency = self.spec_adjacency();
        let n = self.nodes.len();

        let mut distance: Vec<TentativeWeight> = Vec::new();
        let mut open: Vec<usize> = Vec::new();
        let mut parent: Vec<Option<usize>> = Vec::new();
        let mut k: usize = 0;
        while k < n
            invariant
                k <= n,
                distance@.len() == k,
                open@.len() == k,
                parent@.len() == k,
                forall|i: int| 0 <= i < k ==> #[trigger] distance@[i] == TentativeWeight::Infinite,
                forall|i: int| 0 <= i < k ==> #[trigger] open@[i] == i,
                forall|i: int| 0 <= i < k ==> (#[trigger] parent@[i]) is None,
            decreases n - k,
        {
            distance.push(TentativeWeight::Infinite);
            open.push(k);
            parent.push(None);
            k += 1;
        }
        distance[src] = TentativeWeight::Number(0);

        let mut found = false;
        let ghost mut closed: Set<int> = Set::empty();
        let ghost mut ways: Seq<Seq<(int, int)>> = Seq::new(n as nat, |i: int| Seq::empty());
        proof {
            assert(open@.no_duplicates());
            assert forall|v: int| 0 <= v < n && !closed.contains(v) implies open@.contains(
                v as usize,
            ) by {
                assert(open@[v] == v);
            }
            lemma_search_begins(adjacency, src as int, values(distance@), parent@);
        }
        while !open.is_empty()
            invariant_except_break
                settled(adjacency, src as int, values(distance@), closed, -1, 0),
                !found,
            invariant
                self.well_formed(),
                adjacency == self.spec_adjacency(),
                n == self.nodes@.len(),
                src < n,
                dest < n,
                distance@.len() == n,
                parent@.len() == n,
                ways.len() == n,
                traced(adjacency, src as int, values(distance@), ways, parent@, closed),
                open@.no_duplicates(),
                forall|i: int| 0 <= i < open@.len() ==> #[trigger] open@[i] < n,
                forall|i: int| 0 <= i < open@.len() ==> !closed.contains(#[trigger] open@[i] as int),
                forall|v: int| 0 <= v < n && !closed.contains(v) ==> open@.contains(v as usize),
                !found ==> !closed.contains(dest as int),
            ensures
                closed.contains(dest as int),
                ways.len() == n,
                none_lighter(adjacency, src as int, dest as int, values(distance@)[dest as int]),
            decreases open@.len(),
        {
            let u = min_index(&distance, &open);
            let ghost before = open@;
            let ghost place = u as int;
            let u = open.remove(u);
            proof {
                let dist = values(distance@);
                assert(before[place] == u);
                assert forall|o: int| 0 <= o < n && !closed.contains(o) implies dist[u as int]
                    <= #[trigger] dist[o] by {
                    assert(before.contains(o as usize));
                    let i = choose|i: int| 0 <= i < before.len() && before[i] == o as usize;
                    assert(distance@[before[place] as int].value() <= distance@[before[i] as int].value());
                }
                lemma_close(adjacency, src as int, dist, closed, u as int);
                lemma_trace_close(adjacency, src as int, dist, ways, parent@, closed, u as int);
                assert(open@.no_duplicates()) by {
                    assert forall|a: int, b: int|
                        0 <= a < open@.len() && 0 <= b < open@.len() && a != b implies open@[a]
                        != open@[b] by {
                        let a0 = if a < place {
                            a
                        } else {
                            a + 1
                        };
                        let b0 = if b < place {
                            b
                        } else {
                            b + 1
                        };
                        assert(open@[a] == before[a0] && open@[b] == before[b0]);
                    }
                }
                assert forall|i: int| 0 <= i < open@.len() implies #[trigger] open@[i] < n
                    && !closed.insert(u as int).contains(open@[i] as int) by {
                    let i0 = if i < place {
                        i
                    } else {
                        i + 1
                    };
                    assert(open@[i] == before[i0]);
                    assert(before[i0] != before[place]);
                }
                assert forall|v: int| 0 <= v < n && !closed.insert(u as int).contains(
                    v,
                ) implies open@.contains(v as usize) by {
                    assert(before.contains(v as usize));
                    let i = choose|i: int| 0 <= i < before.len() && before[i] == v as usize;
                    if i < place {
                        assert(open@[i] == v as usize);
                    } else {
                        assert(open@[i - 1] == v as usize);
                    }
                }
                closed = closed.insert(u as int);
            }

            if u == dest {
                found = true;
                proof {
                    lemma_closed_is_final(
                        adjacency,
                        src as int,
                        values(distance@),
                        closed,
                        u as int,
                        0,
                        dest as int,
                    );
                }
                break ;
            }
            let dist = distance[u];

            let edges = &self.adjacency_list[u];
            let mut j: usize = 0;
            while j < edges.len()
                invariant
                    j <= edges@.len(),
                    self.well_formed(),
                    adjacency == self.spec_adjacency(),
                    edges@ == adjacency[u as int],
                    n == self.nodes@.len(),
                    u < n,
                    distance@.len() == n,
                    parent@.len() == n,
                    ways.len() == n,
                    dist == distance@[u as int],
                    settled(adjacency, src as int, values(distance@), closed, u as int, j as int),
                    traced(adjacency, src as int, values(distance@), ways, parent@, closed),
                decreases edges@.len() - j,
            {
                let e = &edges[j];
                let new_distance = match dist {
                    TentativeWeight::Number(d) => match d.checked_add(e.weight) {
                        Some(sum) => TentativeWeight::Number(sum),
                        None => TentativeWeight::Infinite,
                    },
                    _ => TentativeWeight::Infinite,
                };
                let old_distance = distance[e.node];
                proof {
                    assert(adjacency[u as int][j as int] == *e);
                    lemma_relax(adjacency, src as int, values(distance@), closed, u as int, j as int);
                }
                if new_distance < old_distance {
                    let ghost was = values(distance@);
                    proof {
                        lemma_trace_relax(
                            adjacency,
                            src as int,
                            was,
                            ways,
                            parent@,
                            closed,
                            u as int,
                            j as int,
                        );
                        ways = ways.update(e.node as int, ways[u as int].push((u as int, j as int)));
                    }
                    distance[e.node] = new_distance;
                    parent[e.node] = Some(u);
                    proof {
                        assert(values(distance@) =~= was.update(
                            e.node as int,
                            was[u as int] + e.weight,
                        ));
                    }
                }
                j += 1;
            }
            proof {
                lemma_all_followed(
                    adjacency,
                    src as int,
                    values(distance@),
                    closed,
                    u as int,
                    j as int,
                );
            }
        }

        if found {
            let ghost dist = values(distance@);
            match distance[dest] {
                TentativeWeight::Number(cost) => {
                    let ghost route = ways[dest as int];
                    let ghost passed = route_nodes(adjacency, src as int, route);
                    proof {
                        assert(dist[dest as int] < limit());
                        lemma_traced_route(
                            adjacency,
                            src as int,
                            dist,
                            ways,
                            parent@,
                            closed,
                            dest as int,
                        );
                        lemma_route_nodes(adjacency, src as int, route, dest as int);
                        lemma_route_nodes_in_range(adjacency, src as int, route, dest as int);
                        assert(passed.subrange(0, route.len() as int + 1) =~= passed);
                    }
                    let mut path: Vec<u64> = Vec::new();
                    path.push(self.nodes[dest]);
                    let mut p = dest;
                    while p != src
                        invariant
                            n == self.nodes@.len(),
                            p < n,
                            src < n,
                            dist.len() == n,
                            parent@.len() == n,
                            ways.len() == n,
                            traced(adjacency, src as int, dist, ways, parent@, closed),
                            dist[p as int] < limit(),
                            passed.len() == route.len() + 1,
                            ways[p as int].len() <= route.len(),
                            route_nodes(adjacency, src as int, ways[p as int]) == passed.subrange(
                                0,
                                ways[p as int].len() as int + 1,
                            ),
                            path@.len() == route.len() - ways[p as int].len() + 1,
                            forall|k: int| 0 <= k < passed.len() ==> 0 <= #[trigger] passed[k] < n,
                            forall|i: int|
                                0 <= i < path@.len() ==> #[trigger] path@[i]
                                    == self.nodes@[passed[route.len() - i]],
                        decreases ways[p as int].len(),
                    {
                        proof {
                            lemma_step_back(
                                adjacency,
                                src as int,
                                dist,
                                ways,
                                parent@,
                                closed,
                                p as int,
                                passed,
                            );
                        }
                        let ghost so_far = path@;
                        let ghost here = p as int;
                        p = parent[p].unwrap();
                        path.push(self.nodes[p]);
                        proof {
                            assert(passed[ways[here].len() - 1] == p);
                            assert(ways[here].len() == ways[p as int].len() + 1);
                            assert(path@.len() == so_far.len() + 1);
                            assert forall|i: int| 0 <= i < path@.len() implies #[trigger] path@[i]
                                == self.nodes@[passed[route.len() - i]] by {
                                if i < so_far.len() {
                                    assert(path@[i] == so_far[i]);
                                } else {
                                    assert(route.len() - i == ways[here].len() - 1);
                                    assert(path@[i] == self.nodes@[p as int]);
                                }
                            }
                        }

                    }
                    // the nodes were met from the end: turn them round
                    let mut turned: Vec<u64> = Vec::new();
                    let length = path.len();
                    let mut i: usize = 0;
                    while i < length
                        invariant
                            i <= length,
                            length == path@.len(),
                            turned@.len() == i,
                            forall|k: int|
                                0 <= k < i ==> #[trigger] turned@[k] == path@[length - 1 - k],
                        decreases length - i,
                    {
                        turned.push(path[length - 1 - i]);
                        i += 1;
                    }
                    proof {
                        lemma_traced_route(
                            adjacency,
                            src as int,
                            dist,
                            ways,
                            parent@,
                            closed,
                            dest as int,
                        );
                        assert(turned@ =~= route_keys(
                            self.spec_nodes(),
                            adjacency,
                            src as int,
                            route,
                        ));
                        assert(is_shortest(adjacency, src as int, route, dest as int));
                    }
                    Some((cost, turned))
                },
                _ => {
                    proof {
                        assert(dist[dest as int] == limit());
                    }
                    None
                },
            }
        } else {
            None
        }
    }
}

/// The edges of the first nodes are no more than the edges of all.
pub proof fn lemma_total_edges_grows(adjacency: Seq<Seq<Edge>>, to: int)
    requires
        0 <= to <= adjacency.len(),
    ensures
        0 <= total_edges(adjacency.subrange(0, to)) <= total_edges(adjacency),
    decreases adjacency.len() - to,
{
    lemma_total_edges_not_negative(adjacency.subrange(0, to));
    if to < adjacency.len() {
        lemma_total_edges_grows(adjacency, to + 1);
        let longer = adjacency.subrange(0, to + 1);
        assert(longer.drop_last() =~= adjacency.subrange(0, to));
    } else {
        assert(adjacency.subrange(0, to) =~= adjacency);
    }
}

/// There is no negative number of edges.
pub proof fn lemma_total_edges_not_negative(adjacency: Seq<Seq<Edge>>)
    ensures
        total_edges(adjacency) >= 0,
    decreases adjacency.len(),
{
    if adjacency.len() > 0 {
        lemma_total_edges_not_negative(adjacency.drop_last());
    }
}

} // verus!
