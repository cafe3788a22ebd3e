//! A plain directed graph with labels: what a picture of a syntax tree or
//! of an automaton is drawn from.
use vstd::prelude::*;
use crate::state_set::{count_false, lemma_count_false_set};

verus! {

/// The number of a node.
pub type IndNode = usize;

/// The number of an edge.
pub type IndEdge = usize;

/// An edge from `from` to `to`.
#[derive(Debug, PartialEq, Eq)]
pub struct Edge {
    pub id: IndEdge,
    pub from: IndNode,
    pub to: IndNode,
    pub label: Option<String>,
}

/// A node, with the numbers of the edges that leave it.
#[derive(Debug, PartialEq, Eq)]
pub struct Node {
    pub id: IndNode,
    pub label: Option<String>,
    pub edges: Vec<IndEdge>,
}

/// A directed graph. Nodes and edges can be added, never removed.
#[derive(Debug, PartialEq, Eq)]
pub struct Graph {
    pub nodes: Vec<Node>,
    pub edges: Vec<Edge>,
    pub start_node: Option<IndNode>,
}

/// The label of a node or of an edge as a mathematical value.
pub open spec fn label_view(label: Option<String>) -> Option<Seq<char>> {
    match label {
        Some(text) => Some(text@),
        None => None,
    }
}

impl Graph {
    /// Every node and every edge carries its own number; an edge leaves a
    /// node of the graph, and the node lists it.
    pub open spec fn wf(&self) -> bool {
        &&& forall|i: int| 0 <= i < self.nodes@.len() ==> (#[trigger] self.nodes@[i]).id == i
        &&& forall|e: int|
            0 <= e < self.edges@.len() ==> (#[trigger] self.edges@[e]).id == e
                && self.edges@[e].from < self.nodes@.len()
        &&& forall|i: int, k: int|
            0 <= i < self.nodes@.len() && 0 <= k < self.nodes@[i].edges@.len() ==> (
            #[trigger] self.nodes@[i].edges@[k]) < self.edges@.len()
                && self.edges@[self.nodes@[i].edges@[k] as int].from == i
        &&& forall|e: int| 0 <= e < self.edges@.len() ==> #[trigger] self.lists_edge(e)
    }

    /// Whether the origin of the edge `e` lists it.
    pub open spec fn lists_edge(&self, e: int) -> bool {
        self.nodes@[self.edges@[e].from as int].edges@.contains(e as usize)
    }

    /// The labels of the nodes, in the order of their numbers.
    pub open spec fn node_labels(&self) -> Seq<Option<Seq<char>>> {
        self.nodes@.map_values(|node: Node| label_view(node.label))
    }

    /// The edges as triples of origin, destination and label, in the order
    /// of their numbers.
    pub open spec fn edge_list(&self) -> Seq<(IndNode, IndNode, Option<Seq<char>>)> {
        self.edges@.map_values(|edge: Edge| (edge.from, edge.to, label_view(edge.label)))
    }

    /// Whether an edge leads from `from` to `to`.
    pub open spec fn has_edge(&self, from: int, to: int) -> bool {
        exists|e: int|
            0 <= e < self.edges@.len() && (#[trigger] self.edges@[e]).from == from
                && self.edges@[e].to == to
    }

    /// The graph without nodes.
    pub fn new() -> (graph: Self)
        ensures
            graph.wf(),
            graph.nodes@.len() == 0,
            graph.edges@.len() == 0,
            graph.start_node is None,
    {
        Self { nodes: Vec::new(), edges: Vec::new(), start_node: None }
    }

    /// The numbers of the edges.
    pub fn get_edges_ids(&self) -> (ids: Vec<IndEdge>)
        ensures
            ids@ == self.edges@.map_values(|edge: Edge| edge.id),
    {
        let mut ids: Vec<IndEdge> = Vec::new();
        let mut i: usize = 0;
        while i < self.edges.len()
            invariant
                i <= self.edges@.len(),
                ids@ == self.edges@.subrange(0, i as int).map_values(|edge: Edge| edge.id),
            decreases self.edges@.len() - i,
        {
            ids.push(self.edges[i].id);
            assert(ids@ =~= self.edges@.subrange(0, i as int + 1).map_values(
                |edge: Edge| edge.id,
            ));
            i += 1;
        }
        assert(self.edges@.subrange(0, i as int) == self.edges@);
        ids
    }

    /// The numbers of the nodes.
    pub fn get_nodes_ids(&self) -> (ids: Vec<IndNode>)
        ensures
            ids@ == self.nodes@.map_values(|node: Node| node.id),
    {
        let mut ids: Vec<IndNode> = Vec::new();
        let mut i: usize = 0;
        while i < self.nodes.len()
            invariant
                i <= self.nodes@.len(),
                ids@ == self.nodes@.subrange(0, i as int).map_values(|node: Node| node.id),
            decreases self.nodes@.len() - i,
        {
            ids.push(self.nodes[i].id);
            assert(ids@ =~= self.nodes@.subrange(0, i as int + 1).map_values(
                |node: Node| node.id,
            ));
            i += 1;
        }
        assert(self.nodes@.subrange(0, i as int) == self.nodes@);
        ids
    }

    pub fn get_node_label(&self, node_id: IndNode) -> (label: &Option<String>)
        requires
            node_id < self.nodes@.len(),
        ensures
            *label == self.nodes@[node_id as int].label,
    {
        &self.nodes[node_id].label
    }

    pub fn get_nodes(&self) -> (nodes: &Vec<Node>)
        ensures
            nodes == self.nodes,
    {
        &self.nodes
    }

    /// The numbers of the edges that leave the node `node_id`.
    pub fn get_node_edges(&self, node_id: IndNode) -> (edges: &Vec<IndEdge>)
        requires
            node_id < self.nodes@.len(),
        ensures
            *edges == self.nodes@[node_id as int].edges,
    {
        &self.nodes[node_id].edges
    }

    /// Adds a node and returns its number.
    pub fn add_node(&mut self, label: Option<String>) -> (id: IndNode)
        requires
            old(self).wf(),
        ensures
            final(self).wf(),
            id == old(self).nodes@.len(),
            final(self).nodes@.len() == old(self).nodes@.len() + 1,
            final(self).node_labels() == old(self).node_labels().push(label_view(label)),
            final(self).nodes@[id as int].edges@.len() == 0,
            forall|i: int|
                0 <= i < old(self).nodes@.len() ==> final(self).nodes@[i] == old(self).nodes@[i],
            final(self).edges == old(self).edges,
            final(self).start_node == old(self).start_node,
    {
        let id = self.nodes.len();
        let ghost text = label_view(label);
        let node = Node { id, label, edges: Vec::new() };
        self.nodes.push(node);
        proof {
            assert(self.node_labels() =~= old(self).node_labels().push(text));
            assert forall|e: int| 0 <= e < self.edges@.len() implies #[trigger] self.lists_edge(
                e,
            ) by {
                assert(old(self).lists_edge(e));
                assert(self.nodes@[self.edges@[e].from as int] == old(self).nodes@[self.edges@[e].from as int]);
            }
        }
        id
    }

    /// Adds an edge from `from` to `to` and returns its number.
    pub fn add_edge(&mut self, from: IndNode, to: IndNode, label: Option<String>) -> (id: IndEdge)
        requires
            old(self).wf(),
            from < old(self).nodes@.len(),
        ensures
            final(self).wf(),
            id == old(self).edges@.len(),
            final(self).edge_list() == old(self).edge_list().push((from, to, label_view(label))),
            final(self).node_labels() == old(self).node_labels(),
            final(self).nodes@.len() == old(self).nodes@.len(),
            final(self).nodes@[from as int].edges@ == old(self).nodes@[from as int].edges@.push(id),
            forall|i: int|
                0 <= i < old(self).nodes@.len() && i != from ==> final(self).nodes@[i] == old(self).nodes@[i],
            final(self).start_node == old(self).start_node,
    {
        let id = self.edges.len();
        let ghost text = label_view(label);
        let edge = Edge { id, from, to, label };
        self.nodes[from].edges.push(id);
        self.edges.push(edge);
        proof {
            assert(self.edge_list() =~= old(self).edge_list().push((from, to, text)));
            assert(self.node_labels() =~= old(self).node_labels());
            assert forall|i: int, k: int|
                0 <= i < self.nodes@.len() && 0 <= k < self.nodes@[i].edges@.len() implies (
            #[trigger] self.nodes@[i].edges@[k]) < self.edges@.len()
                && self.edges@[self.nodes@[i].edges@[k] as int].from == i by {
                if i == from && k == old(self).nodes@[i].edges@.len() {
                } else {
                    assert(self.nodes@[i].edges@[k] == old(self).nodes@[i].edges@[k]);
                }
            }
            assert forall|e: int| 0 <= e < self.edges@.len() implies #[trigger] self.lists_edge(
                e,
            ) by {
                if e < old(self).edges@.len() {
                    assert(old(self).lists_edge(e));
                    let origin = old(self).edges@[e].from as int;
                    let listed = old(self).nodes@[origin].edges@;
                    let k = choose|k: int| 0 <= k < listed.len() && listed[k] == e as usize;
                    assert(self.nodes@[origin].edges@[k] == e as usize);
                } else {
                    let listed = self.nodes@[from as int].edges@;
                    assert(listed[listed.len() - 1] == e as usize);
                }
            }
        }
        id
    }
}

/// Whether `v` is a node of one of the first `upto` levels.
pub open spec fn within_levels(levels: Seq<Vec<IndNode>>, upto: int, v: IndNode) -> bool {
    exists|k: int| 0 <= k < upto && k < levels.len() && (#[trigger] levels[k])@.contains(v)
}

/// A node of the levels taken together is a node of one of them, and the
/// other way round.
pub proof fn lemma_flat_levels(levels: Seq<Vec<IndNode>>, v: IndNode)
    ensures
        flat_levels(levels).contains(v) <==> within_levels(levels, levels.len() as int, v),
    decreases levels.len(),
{
    if levels.len() > 0 {
        let head = flat_levels(levels.drop_last());
        let last = levels.last()@;
        let flat = head + last;
        lemma_flat_levels(levels.drop_last(), v);
        if flat.contains(v) {
            let i = choose|i: int| 0 <= i < flat.len() && flat[i] == v;
            if i < head.len() {
                assert(head[i] == v);
                assert(head.contains(v));
                let k = choose|k: int|
                    0 <= k < levels.len() - 1 && k < levels.drop_last().len() && (
                    #[trigger] levels.drop_last()[k])@.contains(v);
                assert(levels[k] == levels.drop_last()[k]);
            } else {
                assert(last[i - head.len()] == v);
                assert(levels[levels.len() - 1]@.contains(v));
            }
        }
        if within_levels(levels, levels.len() as int, v) {
            let k = choose|k: int|
                0 <= k < levels.len() && k < levels.len() && (#[trigger] levels[k])@.contains(v);
            if k < levels.len() - 1 {
                assert(levels.drop_last()[k] == levels[k]);
                assert(within_levels(levels.drop_last(), levels.len() - 1, v));
                let i = choose|i: int| 0 <= i < head.len() && head[i] == v;
                assert(flat[i] == v);
            } else {
                let i = choose|i: int| 0 <= i < last.len() && last[i] == v;
                assert(flat[head.len() + i] == v);
            }
        }
    }
}

/// The nodes of the levels, level by level.
pub open spec fn flat_levels(levels: Seq<Vec<IndNode>>) -> Seq<IndNode>
    decreases levels.len(),
{
    if levels.len() == 0 {
        Seq::empty()
    } else {
        flat_levels(levels.drop_last()) + levels.last()@
    }
}

impl Graph {
    /// Whether every edge from a node of one of the first `upto` levels
    /// leads to a node of that level, of an earlier one or of the next one.
    pub open spec fn closed_upto(&self, levels: Seq<Vec<IndNode>>, upto: int) -> bool {
        forall|k: int, e: int|
            0 <= k < upto && k < levels.len() && 0 <= e < self.edges@.len() && (
            #[trigger] levels[k])@.contains((#[trigger] self.edges@[e]).from) && self.edges@[e].to
                < self.nodes@.len() ==> within_levels(levels, k + 2, self.edges@[e].to)
    }

    /// Whether every edge from a node of a level leads to a node of that
    /// level, of an earlier one or of the next one: no edge skips a level.
    pub open spec fn levels_close(&self, levels: Seq<Vec<IndNode>>) -> bool {
        self.closed_upto(levels, levels.len() as int)
    }

    /// Whether every edge from a node of the last level leads to a node of
    /// the levels or of `frontier`.
    pub open spec fn last_leads(&self, levels: Seq<Vec<IndNode>>, frontier: Seq<IndNode>) -> bool {
        forall|e: int|
            0 <= e < self.edges@.len() && levels.last()@.contains(
                (#[trigger] self.edges@[e]).from,
            ) && self.edges@[e].to < self.nodes@.len() ==> within_levels(
                levels,
                levels.len() as int,
                self.edges@[e].to,
            ) || frontier.contains(self.edges@[e].to)
    }

    /// Whether an edge leads to `v` from a node of `level`.
    pub open spec fn has_parent_in(&self, level: Seq<IndNode>, v: IndNode) -> bool {
        exists|j: int| 0 <= j < level.len() && self.has_edge((#[trigger] level[j]) as int, v as int)
    }

    /// Whether each node of a level but the first is reached by an edge
    /// from a node of the level before, or stands alone in its level: there
    /// a new part of the graph begins.
    pub open spec fn levels_linked(&self, levels: Seq<Vec<IndNode>>) -> bool {
        forall|k: int, i: int|
            0 < k < levels.len() && 0 <= i < levels[k]@.len() ==> levels[k]@.len() == 1
                || self.has_parent_in(levels[k - 1]@, #[trigger] levels[k]@[i])
    }

    /// Where a level was added whose nodes lead only to nodes of the levels,
    /// of the level itself and of `next`, no edge of an earlier level skips a
    /// level, and the edges of the new level lead to the levels or to `next`.
    proof fn lemma_level_pushed(
        &self,
        before: Seq<Vec<IndNode>>,
        levels: Seq<Vec<IndNode>>,
        level: Seq<IndNode>,
        next: Seq<IndNode>,
        explored: Seq<bool>,
        first: bool,
    )
        requires
            explored.len() == self.nodes@.len(),
            levels.len() == before.len() + 1,
            forall|k: int| 0 <= k < before.len() ==> levels[k] == before[k],
            levels.last()@ == level,
            first ==> self.levels_close(before),
            !first ==> before.len() > 0 && self.closed_upto(before, before.len() - 1)
                && self.last_leads(before, level),
            forall|idx: int, e: int|
                0 <= idx < level.len() && 0 <= e < self.edges@.len() && (
                #[trigger] self.edges@[e]).from == #[trigger] level[idx] && self.edges@[e].to
                    < self.nodes@.len() ==> explored[self.edges@[e].to as int],
            forall|v: int|
                0 <= v < self.nodes@.len() ==> (#[trigger] explored[v] <==> flat_levels(
                    before,
                ).contains(v as usize) || level.contains(v as usize) || next.contains(
                    v as usize,
                )),
        ensures
            self.closed_upto(levels, levels.len() - 1),
            self.last_leads(levels, next),
    {
        let n = self.nodes@.len();
        let was = before.len() as int;
        assert(levels[was] == levels.last());
        assert forall|k: int, e: int|
            0 <= k < was && k < levels.len() && 0 <= e < self.edges@.len() && (
            #[trigger] levels[k])@.contains((#[trigger] self.edges@[e]).from) && self.edges@[e].to
                < n implies within_levels(levels, k + 2, self.edges@[e].to) by {
            let to = self.edges@[e].to;
            assert(levels[k] == before[k]);
            if first || k < was - 1 {
                assert(before[k]@.contains(self.edges@[e].from));
                assert(within_levels(before, k + 2, to));
                let w = choose|w: int|
                    0 <= w < k + 2 && w < before.len() && (#[trigger] before[w])@.contains(to);
                assert(levels[w] == before[w]);
            } else {
                assert(before.last() == before[k]);
                if level.contains(to) {
                    assert(levels[was]@.contains(to));
                } else {
                    assert(within_levels(before, was, to));
                    let w = choose|w: int|
                        0 <= w < was && w < before.len() && (#[trigger] before[w])@.contains(to);
                    assert(levels[w] == before[w]);
                }
            }
        }
        assert forall|e: int|
            0 <= e < self.edges@.len() && levels.last()@.contains(
                (#[trigger] self.edges@[e]).from,
            ) && self.edges@[e].to < n implies within_levels(
            levels,
            levels.len() as int,
            self.edges@[e].to,
        ) || next.contains(self.edges@[e].to) by {
            let to = self.edges@[e].to;
            let idx = choose|idx: int| 0 <= idx < level.len() && level[idx] == self.edges@[e].from;
            assert(self.edges@[e].from == level[idx]);
            assert(explored[to as int]);
            lemma_flat_levels(before, to);
            if flat_levels(before).contains(to) {
                let w = choose|w: int|
                    0 <= w < was && w < before.len() && (#[trigger] before[w])@.contains(to);
                assert(levels[w] == before[w]);
            } else if level.contains(to) {
                assert(levels[was]@.contains(to));
            }
        }
    }

    /// Where no edge of a level but the last skips a level and the edges of
    /// the last level lead to the levels, no edge skips a level.
    proof fn lemma_levels_closed(&self, levels: Seq<Vec<IndNode>>)
        requires
            levels.len() > 0,
            self.closed_upto(levels, levels.len() - 1),
            self.last_leads(levels, Seq::empty()),
        ensures
            self.levels_close(levels),
    {
        assert forall|k: int, e: int|
            0 <= k < levels.len() && 0 <= e < self.edges@.len() && (
            #[trigger] levels[k])@.contains((#[trigger] self.edges@[e]).from) && self.edges@[e].to
                < self.nodes@.len() implies within_levels(levels, k + 2, self.edges@[e].to) by {
            if k == levels.len() - 1 {
                assert(levels.last() == levels[k]);
                let to = self.edges@[e].to;
                assert(within_levels(levels, levels.len() as int, to));
                let w = choose|w: int|
                    0 <= w < levels.len() && w < levels.len() && (#[trigger] levels[w])@.contains(
                        to,
                    );
                assert(levels[w]@.contains(to));
            }
        }
    }

    /// The nodes that are reached from `start_node`, level by level: first
    /// `start_node`, then the nodes that an edge leads to from a node of the
    /// level before and that were not explored yet. The levels are added to
    /// `levels`, and their nodes are marked in `explored`.
    fn bfs_connected_graph(
        &self,
        start_node: IndNode,
        explored: &mut Vec<bool>,
        levels: &mut Vec<Vec<IndNode>>,
    )
        requires
            self.wf(),
            start_node < self.nodes@.len(),
            old(explored)@.len() == self.nodes@.len(),
            !old(explored)@[start_node as int],
            flat_levels(old(levels)@).no_duplicates(),
            forall|v: int|
                0 <= v < self.nodes@.len() ==> (#[trigger] old(explored)@[v] <==> flat_levels(
                    old(levels)@,
                ).contains(v as usize)),
            forall|v: IndNode| flat_levels(old(levels)@).contains(v) ==> v < self.nodes@.len(),
            forall|k: int| 0 <= k < old(levels)@.len() ==> (#[trigger] old(levels)@[k])@.len() > 0,
            self.levels_linked(old(levels)@),
            self.levels_close(old(levels)@),
        ensures
            self.levels_close(final(levels)@),
            final(explored)@.len() == self.nodes@.len(),
            flat_levels(final(levels)@).no_duplicates(),
            forall|v: int|
                0 <= v < self.nodes@.len() ==> (#[trigger] final(explored)@[v] <==> flat_levels(
                    final(levels)@,
                ).contains(v as usize)),
            forall|v: IndNode| flat_levels(final(levels)@).contains(v) ==> v < self.nodes@.len(),
            forall|k: int|
                0 <= k < final(levels)@.len() ==> (#[trigger] final(levels)@[k])@.len() > 0,
            self.levels_linked(final(levels)@),
            final(levels)@.len() > old(levels)@.len(),
            forall|k: int|
                0 <= k < old(levels)@.len() ==> final(levels)@[k] == old(levels)@[k],
            final(levels)@[old(levels)@.len() as int]@ == seq![start_node],
            count_false(final(explored)@) < count_false(old(explored)@),
            forall|v: int|
                0 <= v < self.nodes@.len() && old(explored)@[v] ==> #[trigger] final(explored)@[v],
    {
        let n = self.nodes.len();
        let mut frontier: Vec<IndNode> = Vec::new();
        frontier.push(start_node);
        proof {
            lemma_count_false_set(explored@, start_node as int);
        }
        explored.set(start_node, true);
        let ghost base = levels@.len();
        let ghost first = true;
        proof {
            assert(frontier@[0] == start_node);
            assert forall|v: int| 0 <= v < n implies (#[trigger] explored@[v] <==> flat_levels(
                levels@,
            ).contains(v as usize) || frontier@.contains(v as usize)) by {
                assert(old(explored)@[v] <==> flat_levels(levels@).contains(v as usize));
                if frontier@.contains(v as usize) {
                    let k = choose|k: int| 0 <= k < frontier@.len() && frontier@[k] == v as usize;
                }
            }
        }
        while frontier.len() > 0
            invariant
                self.wf(),
                n == self.nodes@.len(),
                explored@.len() == n,
                base == old(levels)@.len(),
                levels@.len() >= base,
                first ==> levels@.len() == base && frontier@ == seq![start_node],
                !first ==> levels@.len() > base && levels@[base as int]@ == seq![start_node],
                forall|k: int| 0 <= k < base ==> levels@[k] == old(levels)@[k],
                flat_levels(levels@).no_duplicates(),
                frontier@.no_duplicates(),
                forall|i: int|
                    0 <= i < frontier@.len() ==> (#[trigger] frontier@[i]) < n && !flat_levels(
                        levels@,
                    ).contains(frontier@[i]),
                forall|v: int|
                    0 <= v < n ==> (#[trigger] explored@[v] <==> flat_levels(levels@).contains(
                        v as usize,
                    ) || frontier@.contains(v as usize)),
                forall|v: IndNode| flat_levels(levels@).contains(v) ==> v < n,
                forall|k: int| 0 <= k < levels@.len() ==> (#[trigger] levels@[k])@.len() > 0,
                self.levels_linked(levels@),
                first ==> self.levels_close(levels@),
                !first ==> self.closed_upto(levels@, levels@.len() - 1) && self.last_leads(
                    levels@,
                    frontier@,
                ),
                forall|v: int| 0 <= v < n && old(explored)@[v] ==> #[trigger] explored@[v],
                !first ==> forall|i: int|
                    0 <= i < frontier@.len() ==> self.has_parent_in(
                        levels@.last()@,
                        #[trigger] frontier@[i],
                    ),
                count_false(explored@) < count_false(old(explored)@),
            decreases count_false(explored@) + frontier@.len(),
        {
            let ghost levels_before = levels@;
            let ghost flat_before = flat_levels(levels@);
            let ghost level = frontier@;
            let ghost count_before = count_false(explored@);
            let mut next: Vec<IndNode> = Vec::new();
            let mut i: usize = 0;
            while i < frontier.len()
                invariant
                    self.wf(),
                    n == self.nodes@.len(),
                    explored@.len() == n,
                    level == frontier@,
                    i <= frontier@.len(),
                    frontier@.len() > 0,
                    forall|v: int| 0 <= v < n && old(explored)@[v] ==> #[trigger] explored@[v],
                    forall|idx: int, e: int|
                        0 <= idx < i && 0 <= e < self.edges@.len() && (
                        #[trigger] self.edges@[e]).from == #[trigger] frontier@[idx]
                            && self.edges@[e].to < n ==> explored@[self.edges@[e].to as int],
                    next@.no_duplicates(),
                    forall|k: int| 0 <= k < frontier@.len() ==> (#[trigger] frontier@[k]) < n,
                    forall|k: int|
                        0 <= k < next@.len() ==> (#[trigger] next@[k]) < n && !flat_before.contains(
                            next@[k],
                        ) && !level.contains(next@[k]),
                    forall|v: int|
                        0 <= v < n ==> (#[trigger] explored@[v] <==> flat_before.contains(
                            v as usize,
                        ) || level.contains(v as usize) || next@.contains(v as usize)),
                    forall|k: int|
                        0 <= k < next@.len() ==> self.has_parent_in(level, #[trigger] next@[k]),
                    count_false(explored@) + next@.len() == count_before,
                decreases frontier@.len() - i,
            {
                let node = frontier[i];
                let mut e: usize = 0;
                while e < self.nodes[node].edges.len()
                    invariant
                        self.wf(),
                        n == self.nodes@.len(),
                        explored@.len() == n,
                        level == frontier@,
                        i < frontier@.len(),
                        node == frontier@[i as int],
                        node < n,
                        e <= self.nodes@[node as int].edges@.len(),
                        forall|v: int| 0 <= v < n && old(explored)@[v] ==> #[trigger] explored@[v],
                        forall|idx: int, x: int|
                            0 <= idx < i && 0 <= x < self.edges@.len() && (
                            #[trigger] self.edges@[x]).from == #[trigger] frontier@[idx]
                                && self.edges@[x].to < n ==> explored@[self.edges@[x].to as int],
                        forall|j: int|
                            0 <= j < e && self.edges@[(
                            #[trigger] self.nodes@[node as int].edges@[j]) as int].to < n
                                ==> explored@[self.edges@[self.nodes@[node as int].edges@[j] as int].to as int],
                        next@.no_duplicates(),
                        forall|k: int|
                            0 <= k < next@.len() ==> (#[trigger] next@[k]) < n
                                && !flat_before.contains(next@[k]) && !level.contains(next@[k]),
                        forall|v: int|
                            0 <= v < n ==> (#[trigger] explored@[v] <==> flat_before.contains(
                                v as usize,
                            ) || level.contains(v as usize) || next@.contains(v as usize)),
                        forall|k: int|
                            0 <= k < next@.len() ==> self.has_parent_in(level, #[trigger] next@[k]),
                        count_false(explored@) + next@.len() == count_before,
                    decreases self.nodes@[node as int].edges@.len() - e,
                {
                    let edge_ind = self.nodes[node].edges[e];
                    let to = self.edges[edge_ind].to;
                    if to < n && !explored[to] {
                        let ghost next_before = next@;
                        let ghost explored_before = explored@;
                        proof {
                            lemma_count_false_set(explored@, to as int);
                        }
                        explored.set(to, true);
                        next.push(to);
                        proof {
                            assert(self.edges@[edge_ind as int].from == node);
                            assert(self.has_edge(level[i as int] as int, to as int));
                            assert forall|a: int, b: int|
                                0 <= a < next@.len() && 0 <= b < next@.len() && a
                                    != b implies next@[a] != next@[b] by {
                                if a < next_before.len() && b < next_before.len() {
                                    assert(next_before[a] != next_before[b]);
                                } else if a < next_before.len() {
                                    assert(next_before.contains(next_before[a]));
                                } else {
                                    assert(next_before.contains(next_before[b]));
                                }
                            }
                            assert forall|w: int| 0 <= w < n implies (#[trigger] explored@[w]
                                <==> flat_before.contains(w as usize) || level.contains(
                                w as usize,
                            ) || next@.contains(w as usize)) by {
                                let v = w as usize;
                                assert(explored_before[w] <==> flat_before.contains(v)
                                    || level.contains(v) || next_before.contains(v));
                                if next_before.contains(v) {
                                    let k = choose|k: int|
                                        0 <= k < next_before.len() && next_before[k] == v;
                                    assert(next@[k] == v);
                                }
                                if next@.contains(v) {
                                    let k = choose|k: int| 0 <= k < next@.len() && next@[k] == v;
                                    if k < next_before.len() {
                                        assert(next_before[k] == v);
                                    }
                                }
                                if v == to {
                                    assert(next@[next_before.len() as int] == to);
                                }
                            }
                            assert forall|k: int| 0 <= k < next@.len() implies self.has_parent_in(
                                level,
                                #[trigger] next@[k],
                            ) by {
                                if k < next_before.len() {
                                    assert(next@[k] == next_before[k]);
                                    assert(self.has_parent_in(level, next_before[k]));
                                }
                            }
                        }
                    }
                    e += 1;
                }
                proof {
                    assert forall|idx: int, x: int|
                        0 <= idx < i + 1 && 0 <= x < self.edges@.len() && (
                        #[trigger] self.edges@[x]).from == #[trigger] frontier@[idx]
                            && self.edges@[x].to < n implies explored@[self.edges@[x].to as int] by {
                        if idx == i {
                            assert(self.lists_edge(x));
                            let listed = self.nodes@[node as int].edges@;
                            let j = choose|j: int| 0 <= j < listed.len() && listed[j] == x as usize;
                            assert(self.edges@[self.nodes@[node as int].edges@[j] as int].to < n);
                        }
                    }
                }
                i += 1;
            }
            levels.push(frontier);
            proof {
                assert(levels@.drop_last() == levels_before);
                assert(levels@.last()@ == level);
                let flat = flat_levels(levels@);
                assert(flat == flat_before + level);
                assert forall|a: int, b: int|
                    0 <= a < flat.len() && 0 <= b < flat.len() && a != b implies flat[a]
                    != flat[b] by {
                    if a < flat_before.len() && b < flat_before.len() {
                        assert(flat_before[a] != flat_before[b]);
                    } else if a < flat_before.len() {
                        assert(flat_before.contains(flat_before[a]));
                        assert(level[b - flat_before.len()] == flat[b]);
                    } else if b < flat_before.len() {
                        assert(flat_before.contains(flat_before[b]));
                        assert(level[a - flat_before.len()] == flat[a]);
                    } else {
                        assert(level[a - flat_before.len()] != level[b - flat_before.len()]);
                    }
                }
                assert forall|v: IndNode| flat.contains(v) <==> flat_before.contains(v)
                    || level.contains(v) by {
                    if flat.contains(v) {
                        let k = choose|k: int| 0 <= k < flat.len() && flat[k] == v;
                        if k < flat_before.len() {
                            assert(flat_before[k] == v);
                        } else {
                            assert(level[k - flat_before.len()] == v);
                        }
                    }
                    if flat_before.contains(v) {
                        let k = choose|k: int| 0 <= k < flat_before.len() && flat_before[k] == v;
                        assert(flat[k] == v);
                    }
                    if level.contains(v) {
                        let k = choose|k: int| 0 <= k < level.len() && level[k] == v;
                        assert(flat[flat_before.len() + k] == v);
                    }
                }
                assert forall|v: int| 0 <= v < n implies (#[trigger] explored@[v] <==> flat.contains(
                    v as usize,
                ) || next@.contains(v as usize)) by {
                    assert(flat.contains(v as usize) <==> flat_before.contains(v as usize)
                        || level.contains(v as usize));
                }
                assert forall|k: int| 0 <= k < next@.len() implies (#[trigger] next@[k]) < n
                    && !flat.contains(next@[k]) by {
                    assert(flat.contains(next@[k]) <==> flat_before.contains(next@[k])
                        || level.contains(next@[k]));
                }
                assert forall|v: IndNode| flat.contains(v) implies v < n by {
                    if level.contains(v) {
                        let k = choose|k: int| 0 <= k < level.len() && level[k] == v;
                        assert(level[k] < n);
                    }
                }
                self.lemma_level_pushed(levels_before, levels@, level, next@, explored@, first);
                assert(self.levels_linked(levels@)) by {
                    assert forall|k: int, x: int|
                        0 < k < levels@.len() && 0 <= x < levels@[k]@.len() implies levels@[k]@.len()
                        == 1 || self.has_parent_in(levels@[k - 1]@, #[trigger] levels@[k]@[x]) by {
                        if k < levels_before.len() {
                            assert(levels@[k] == levels_before[k]);
                            assert(levels@[k - 1] == levels_before[k - 1]);
                            assert(levels_before[k]@.len() == 1 || self.has_parent_in(
                                levels_before[k - 1]@,
                                levels_before[k]@[x],
                            ));
                        } else if first {
                        } else {
                            assert(levels@[k - 1] == levels_before.last());
                            assert(self.has_parent_in(levels_before.last()@, level[x]));
                        }
                    }
                }
                assert forall|k: int| 0 <= k < levels@.len() implies (
                #[trigger] levels@[k])@.len() > 0 by {
                    if k < levels_before.len() {
                        assert(levels@[k] == levels_before[k]);
                    }
                }
                if first {
                    assert(levels@[base as int]@ == seq![start_node]);
                } else {
                    assert(levels@[base as int] == levels_before[base as int]);
                }
                assert forall|k: int| 0 <= k < base implies levels@[k] == old(levels)@[k] by {
                    assert(levels@[k] == levels_before[k]);
                }
                first = false;
            }
            frontier = next;
        }
        proof {
            self.lemma_levels_closed(levels@);
        }
    }
}

impl Graph {
    /// The node at which a search begins: the one asked for, else the start
    /// node of the graph, else the first node.
    pub open spec fn first_node(&self, start_node: Option<IndNode>) -> IndNode {
        match start_node {
            Some(start) => start,
            None => match self.start_node {
                Some(start) => start,
                None => 0,
            },
        }
    }

    /// The nodes of the graph level by level, in the order of a
    /// breadth-first search. The search begins at `start_node`, else at the
    /// start node of the graph, else at the first node; where nodes are left
    /// that it has not reached, it begins anew at the lowest of them. Every
    /// node comes once.
    pub fn bfs(&self, start_node: Option<IndNode>) -> (levels: Vec<Vec<IndNode>>)
        requires
            self.wf(),
            start_node matches Some(start) ==> start < self.nodes@.len(),
            self.start_node matches Some(start) ==> start < self.nodes@.len(),
        ensures
            flat_levels(levels@).no_duplicates(),
            forall|v: IndNode| v < self.nodes@.len() <==> #[trigger] flat_levels(levels@).contains(v),
            forall|k: int| 0 <= k < levels@.len() ==> (#[trigger] levels@[k])@.len() > 0,
            self.levels_linked(levels@),
            self.levels_close(levels@),
            self.nodes@.len() > 0 ==> levels@.len() > 0 && levels@[0]@ == seq![
                self.first_node(start_node),
            ],
    {
        let n = self.nodes.len();
        let mut explored = vec![false; n];
        let mut levels: Vec<Vec<IndNode>> = Vec::new();
        let mut next = match start_node {
            Some(start) => Some(start),
            None => self.start_node,
        };
        let mut cursor: usize = 0;
        let mut finished = false;
        while !finished
            invariant
                self.wf(),
                n == self.nodes@.len(),
                explored@.len() == n,
                cursor <= n,
                forall|v: int| 0 <= v < cursor ==> #[trigger] explored@[v],
                flat_levels(levels@).no_duplicates(),
                forall|v: int|
                    0 <= v < n ==> (#[trigger] explored@[v] <==> flat_levels(levels@).contains(
                        v as usize,
                    )),
                forall|v: IndNode| flat_levels(levels@).contains(v) ==> v < n,
                forall|k: int| 0 <= k < levels@.len() ==> (#[trigger] levels@[k])@.len() > 0,
                self.levels_linked(levels@),
                self.levels_close(levels@),
                next matches Some(start) ==> start < n && levels@.len() == 0,
                levels@.len() == 0 ==> cursor == 0 && forall|v: int|
                    0 <= v < n ==> !#[trigger] explored@[v],
                levels@.len() == 0 ==> next == (match start_node {
                    Some(start) => Some(start),
                    None => self.start_node,
                }),
                levels@.len() > 0 ==> levels@[0]@ == seq![self.first_node(start_node)],
                finished ==> cursor == n,
            decreases
                    count_false(explored@) + if finished {
                        0nat
                    } else {
                        1nat
                    },
        {
            let start = match next {
                Some(start) => Some(start),
                None => {
                    while cursor < n && explored[cursor]
                        invariant
                            explored@.len() == n,
                            cursor <= n,
                            forall|v: int| 0 <= v < cursor ==> #[trigger] explored@[v],
                            levels@.len() == 0 ==> cursor == 0 && forall|v: int|
                                0 <= v < n ==> !#[trigger] explored@[v],
                        decreases n - cursor,
                    {
                        cursor += 1;
                    }
                    if cursor >= n {
                        None
                    } else {
                        Some(cursor)
                    }
                },
            };
            match start {
                Some(start) => {
                    let ghost explored_before = explored@;
                    self.bfs_connected_graph(start, &mut explored, &mut levels);
                    proof {
                        assert forall|v: int| 0 <= v < cursor implies #[trigger] explored@[v] by {
                            assert(explored_before[v]);
                        }
                    }
                    next = None;
                },
                None => {
                    finished = true;
                },
            }
        }
        proof {
            assert forall|v: IndNode| v < n implies #[trigger] flat_levels(levels@).contains(v) by {
                assert(explored@[v as int]);
            }
        }
        levels
    }
}

/// How an edge is to be drawn.
#[derive(Debug, Clone, Copy, PartialEq, Eq, Structural)]
pub enum EdgeType {
    /// The edge leads from a node to itself.
    SELFLOOP,
    /// No edge leads the other way.
    DIRECTED,
    /// An edge leads the other way too.
    COLLIDING,
}

impl Graph {
    /// How the edge `e` is to be drawn: as a loop where it leads from a node
    /// to itself, as colliding where some edge leads the other way, else as
    /// a plain directed edge.
    pub open spec fn spec_edge_type(&self, e: int) -> EdgeType {
        if self.edges@[e].from == self.edges@[e].to {
            EdgeType::SELFLOOP
        } else if self.has_edge(self.edges@[e].to as int, self.edges@[e].from as int) {
            EdgeType::COLLIDING
        } else {
            EdgeType::DIRECTED
        }
    }

    /// Whether an edge leads from `from` to `to`.
    pub fn is_linked(&self, from: IndNode, to: IndNode) -> (b: bool)
        ensures
            b == self.has_edge(from as int, to as int),
    {
        let mut e: usize = 0;
        while e < self.edges.len()
            invariant
                e <= self.edges@.len(),
                forall|k: int|
                    0 <= k < e ==> !((#[trigger] self.edges@[k]).from == from && self.edges@[k].to
                        == to),
            decreases self.edges@.len() - e,
        {
            if self.edges[e].from == from && self.edges[e].to == to {
                return true;
            }
            e += 1;
        }
        false
    }

    /// For each edge, in the order of their numbers, how it is to be drawn.
    pub fn edge_types(&self) -> (types: Vec<EdgeType>)
        ensures
            types@.len() == self.edges@.len(),
            forall|e: int| 0 <= e < self.edges@.len() ==> #[trigger] types@[e] == self.spec_edge_type(e),
    {
        let mut types: Vec<EdgeType> = Vec::new();
        let mut e: usize = 0;
        while e < self.edges.len()
            invariant
                e <= self.edges@.len(),
                types@.len() == e,
                forall|k: int| 0 <= k < e ==> #[trigger] types@[k] == self.spec_edge_type(k),
            decreases self.edges@.len() - e,
        {
            let from = self.edges[e].from;
            let to = self.edges[e].to;
            let edge_type = if from == to {
                EdgeType::SELFLOOP
            } else if self.is_linked(to, from) {
                EdgeType::COLLIDING
            } else {
                EdgeType::DIRECTED
            };
            types.push(edge_type);
            e += 1;
        }
        types
    }
}

} // verus!
