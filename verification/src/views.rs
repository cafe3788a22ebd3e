//! The graphs that a picture of a syntax tree or of an automaton is drawn
//! from.
use vstd::prelude::*;
use vstd::string::*;
use crate::dfa::DFA;
use crate::graph::{label_view, Graph, IndNode};
use crate::nfa::NFA;
use crate::regular_expression::ReOperator;
use crate::text::{char_text, decimal, spec_decimal};

verus! {

/// The label of the state `node` of an automaton: its number, behind `s:`
/// for the start state, and behind `e:` for an accepting state that is not
/// the start state.
pub open spec fn spec_state_label(node: nat, start: nat, is_final: bool) -> Seq<char> {
    if node == start {
        "s:"@ + spec_decimal(node)
    } else if is_final {
        "e:"@ + spec_decimal(node)
    } else {
        spec_decimal(node)
    }
}

/// The label of the state `node` of an automaton.
pub fn state_label(node: usize, start: usize, is_final: bool) -> (label: String)
    ensures
        label@ == spec_state_label(node as nat, start as nat, is_final),
{
    let number = decimal(node);
    if node == start {
        let mut label = String::from_str("s:");
        label.append(number.as_str());
        label
    } else if is_final {
        let mut label = String::from_str("e:");
        label.append(number.as_str());
        label
    } else {
        number
    }
}

/// The edges of the moves of the states from `from` on, of which those of
/// `from` start at its move `at`: for a move from `q` on `c` to `d` an edge
/// from `q` to `d` with the label `c`.
pub open spec fn move_edges(transitions: Seq<Vec<(char, usize)>>, from: int, at: int) -> Seq<
    (IndNode, IndNode, Option<Seq<char>>),
>
    decreases transitions.len() - from, transitions[from]@.len() - at,
{
    if from < 0 || from >= transitions.len() || at < 0 {
        Seq::empty()
    } else if at >= transitions[from]@.len() {
        move_edges(transitions, from + 1, 0)
    } else {
        seq![(from as usize, transitions[from]@[at].1, Some(seq![transitions[from]@[at].0]))]
            + move_edges(transitions, from, at + 1)
    }
}

/// The destinations of `moves`, each one once, in the order in which they
/// first occur.
pub open spec fn spec_targets(moves: Seq<(char, usize)>) -> Seq<usize>
    decreases moves.len(),
{
    if moves.len() == 0 {
        Seq::empty()
    } else {
        let before = spec_targets(moves.drop_last());
        if before.contains(moves.last().1) {
            before
        } else {
            before.push(moves.last().1)
        }
    }
}

/// The symbols of the moves of `moves` that lead to `to`, in their order,
/// with a comma between two of them.
pub open spec fn spec_joined(moves: Seq<(char, usize)>, to: usize) -> Seq<char>
    decreases moves.len(),
{
    if moves.len() == 0 {
        Seq::empty()
    } else {
        let before = spec_joined(moves.drop_last(), to);
        if moves.last().1 != to {
            before
        } else if before.len() == 0 {
            seq![moves.last().0]
        } else {
            before.push(',').push(moves.last().0)
        }
    }
}

/// For each destination of `moves`, in the order of `spec_targets`, an edge
/// from `from` that carries the symbols of all the moves to it.
pub open spec fn joined_edges(from: usize, moves: Seq<(char, usize)>) -> Seq<
    (IndNode, IndNode, Option<Seq<char>>),
> {
    spec_targets(moves).map_values(|to: usize| (from, to, Some(spec_joined(moves, to))))
}

/// The edges of all the states: those of each state as `joined_edges` says,
/// state by state.
pub open spec fn all_joined_edges(transitions: Seq<Vec<(char, usize)>>) -> Seq<
    (IndNode, IndNode, Option<Seq<char>>),
>
    decreases transitions.len(),
{
    if transitions.len() == 0 {
        Seq::empty()
    } else {
        all_joined_edges(transitions.drop_last()) + joined_edges(
            (transitions.len() - 1) as usize,
            transitions.last()@,
        )
    }
}

/// Whether `x` is an element of `list`.
fn contains_index(list: &Vec<usize>, x: usize) -> (b: bool)
    ensures
        b == list@.contains(x),
{
    let mut i: usize = 0;
    while i < list.len()
        invariant
            i <= list@.len(),
            forall|k: int| 0 <= k < i ==> list@[k] != x,
        decreases list@.len() - i,
    {
        if list[i] == x {
            return true;
        }
        i += 1;
    }
    false
}

/// The destinations of `moves`, each one once, in the order in which they
/// first occur.
fn targets(moves: &Vec<(char, usize)>) -> (list: Vec<usize>)
    ensures
        list@ == spec_targets(moves@),
{
    let mut list: Vec<usize> = Vec::new();
    let mut k: usize = 0;
    while k < moves.len()
        invariant
            k <= moves@.len(),
            list@ == spec_targets(moves@.subrange(0, k as int)),
        decreases moves@.len() - k,
    {
        proof {
            assert(moves@.subrange(0, k as int + 1).drop_last() == moves@.subrange(0, k as int));
        }
        let (_, to) = moves[k];
        if !contains_index(&list, to) {
            list.push(to);
        }
        k += 1;
    }
    assert(moves@.subrange(0, k as int) == moves@);
    list
}

/// The symbols of the moves of `moves` that lead to `to`, with a comma
/// between two of them.
fn joined(moves: &Vec<(char, usize)>, to: usize) -> (label: String)
    ensures
        label@ == spec_joined(moves@, to),
{
    let mut label = String::new();
    let mut empty = true;
    let mut k: usize = 0;
    while k < moves.len()
        invariant
            k <= moves@.len(),
            label@ == spec_joined(moves@.subrange(0, k as int), to),
            empty == (label@.len() == 0),
        decreases moves@.len() - k,
    {
        proof {
            assert(moves@.subrange(0, k as int + 1).drop_last() == moves@.subrange(0, k as int));
        }
        let (symbol, dest) = moves[k];
        if dest == to {
            if !empty {
                label.push(',');
            }
            label.push(symbol);
            empty = false;
            assert(label@ =~= spec_joined(moves@.subrange(0, k as int + 1), to));
        }
        k += 1;
    }
    assert(moves@.subrange(0, k as int) == moves@);
    label
}

/// Adds a node for each state, with its label.
fn add_state_nodes(
    graph: &mut Graph,
    num_states: usize,
    start_state: usize,
    end_states: &Vec<usize>,
)
    requires
        old(graph).wf(),
        old(graph).nodes@.len() == 0,
        old(graph).edges@.len() == 0,
    ensures
        final(graph).wf(),
        final(graph).edges@.len() == 0,
        final(graph).start_node == old(graph).start_node,
        final(graph).node_labels() == Seq::new(
            num_states as nat,
            |q: int|
                Some(
                    spec_state_label(q as nat, start_state as nat, end_states@.contains(q as usize)),
                ),
        ),
{
    let mut node: usize = 0;
    while node < num_states
        invariant
            graph.wf(),
            graph.edges@.len() == 0,
            graph.start_node == old(graph).start_node,
            node <= num_states,
            graph.node_labels() == Seq::new(
                node as nat,
                |q: int|
                    Some(
                        spec_state_label(
                            q as nat,
                            start_state as nat,
                            end_states@.contains(q as usize),
                        ),
                    ),
            ),
        decreases num_states - node,
    {
        let is_final = contains_index(end_states, node);
        let label = state_label(node, start_state, is_final);
        let ghost before = graph.node_labels();
        let _ = graph.add_node(Some(label));
        assert(graph.node_labels() =~= Seq::new(
            (node + 1) as nat,
            |q: int|
                Some(
                    spec_state_label(q as nat, start_state as nat, end_states@.contains(q as usize)),
                ),
        ));
        node += 1;
    }
}

impl NFA {
    /// Whether `graph` is the graph of the automaton: a node for each state
    /// with the label of `spec_state_label`, and an edge for each move, with
    /// its symbol, in the order of the states and of their moves.
    pub open spec fn is_graph(&self, graph: &Graph) -> bool {
        &&& graph.node_labels() == Seq::new(
            self.num_states as nat,
            |q: int|
                Some(
                    spec_state_label(
                        q as nat,
                        self.start_state as nat,
                        self.end_states@.contains(q as usize),
                    ),
                ),
        )
        &&& graph.edge_list() == move_edges(self.transitions@, 0, 0)
        &&& graph.start_node is None
    }

    /// The graph of the automaton: a node for each state with the label of
    /// `spec_state_label`, and an edge for each move, with its symbol, in
    /// the order of the states and of their moves.
    pub fn into_graph(&self) -> (graph: Graph)
        requires
            self.wf(),
        ensures
            graph.wf(),
            self.is_graph(&graph),
    {
        let mut graph = Graph::new();
        add_state_nodes(&mut graph, self.num_states, self.start_state, &self.end_states);
        assert(graph.nodes@.len() == graph.node_labels().len());
        assert(graph.edge_list() =~= Seq::empty());
        let mut from: usize = 0;
        while from < self.transitions.len()
            invariant
                self.wf(),
                graph.wf(),
                graph.nodes@.len() == self.num_states,
                graph.start_node is None,
                from <= self.transitions@.len(),
                graph.node_labels() == Seq::new(
                    self.num_states as nat,
                    |q: int|
                        Some(
                            spec_state_label(
                                q as nat,
                                self.start_state as nat,
                                self.end_states@.contains(q as usize),
                            ),
                        ),
                ),
                graph.edge_list() + move_edges(self.transitions@, from as int, 0) == move_edges(
                    self.transitions@,
                    0,
                    0,
                ),
            decreases self.transitions@.len() - from,
        {
            let mut at: usize = 0;
            while at < self.transitions[from].len()
                invariant
                    self.wf(),
                    graph.wf(),
                    graph.nodes@.len() == self.num_states,
                    graph.start_node is None,
                    from < self.transitions@.len(),
                    at <= self.transitions@[from as int]@.len(),
                    graph.node_labels() == Seq::new(
                        self.num_states as nat,
                        |q: int|
                            Some(
                                spec_state_label(
                                    q as nat,
                                    self.start_state as nat,
                                    self.end_states@.contains(q as usize),
                                ),
                            ),
                    ),
                    graph.edge_list() + move_edges(self.transitions@, from as int, at as int)
                        == move_edges(self.transitions@, 0, 0),
                decreases self.transitions@[from as int]@.len() - at,
            {
                let (symbol, to) = self.transitions[from][at];
                let ghost before = graph.edge_list();
                let _ = graph.add_edge(from, to, Some(char_text(symbol)));
                proof {
                    let added = (from, to, Some(seq![symbol]));
                    assert(graph.edge_list() == before.push(added));
                    assert(before.push(added) + move_edges(
                        self.transitions@,
                        from as int,
                        at as int + 1,
                    ) =~= before + (seq![added] + move_edges(
                        self.transitions@,
                        from as int,
                        at as int + 1,
                    )));
                }
                at += 1;
            }
            from += 1;
        }
        proof {
            assert(move_edges(self.transitions@, from as int, 0) =~= Seq::empty());
            assert(graph.edge_list() =~= move_edges(self.transitions@, 0, 0));
        }
        graph
    }
}

impl<T> DFA<T> {
    /// Whether `graph` is the graph of the automaton: a node for each state
    /// with the label of `spec_state_label`, and, for each state and each
    /// state that it moves to, one edge that carries the symbols of all the
    /// moves between the two, with commas between them.
    pub open spec fn is_graph(&self, graph: &Graph) -> bool {
        &&& graph.node_labels() == Seq::new(
            self.num_states as nat,
            |q: int|
                Some(
                    spec_state_label(
                        q as nat,
                        self.start_state as nat,
                        self.end_states@.contains(q as usize),
                    ),
                ),
        )
        &&& graph.edge_list() == all_joined_edges(self.transitions@)
        &&& graph.start_node is None
    }

    /// The graph of the automaton: a node for each state with the label of
    /// `spec_state_label`, and, for each state and each state that it moves
    /// to, one edge that carries the symbols of all the moves between the
    /// two, with commas between them.
    pub fn into_graph(&self) -> (graph: Graph)
        requires
            self.transitions@.len() == self.num_states,
        ensures
            graph.wf(),
            self.is_graph(&graph),
    {
        let mut graph = Graph::new();
        add_state_nodes(&mut graph, self.num_states, self.start_state, &self.end_states);
        assert(graph.nodes@.len() == graph.node_labels().len());
        assert(graph.edge_list() =~= Seq::empty());
        let mut from: usize = 0;
        while from < self.transitions.len()
            invariant
                self.transitions@.len() == self.num_states,
                graph.wf(),
                graph.nodes@.len() == self.num_states,
                graph.start_node is None,
                from <= self.transitions@.len(),
                graph.node_labels() == Seq::new(
                    self.num_states as nat,
                    |q: int|
                        Some(
                            spec_state_label(
                                q as nat,
                                self.start_state as nat,
                                self.end_states@.contains(q as usize),
                            ),
                        ),
                ),
                graph.edge_list() == all_joined_edges(self.transitions@.subrange(0, from as int)),
            decreases self.transitions@.len() - from,
        {
            let ghost outer = graph.edge_list();
            let ghost moves = self.transitions@[from as int]@;
            let list = targets(&self.transitions[from]);
            let mut k: usize = 0;
            while k < list.len()
                invariant
                    self.transitions@.len() == self.num_states,
                    graph.wf(),
                    graph.nodes@.len() == self.num_states,
                    graph.start_node is None,
                    from < self.transitions@.len(),
                    moves == self.transitions@[from as int]@,
                    list@ == spec_targets(moves),
                    k <= list@.len(),
                    graph.node_labels() == Seq::new(
                        self.num_states as nat,
                        |q: int|
                            Some(
                                spec_state_label(
                                    q as nat,
                                    self.start_state as nat,
                                    self.end_states@.contains(q as usize),
                                ),
                            ),
                    ),
                    graph.edge_list() == outer + joined_edges(from, moves).subrange(0, k as int),
                decreases list@.len() - k,
            {
                let to = list[k];
                let label = joined(&self.transitions[from], to);
                let ghost before = graph.edge_list();
                let _ = graph.add_edge(from, to, Some(label));
                proof {
                    let edges = joined_edges(from, moves);
                    assert(edges[k as int] == (from, to, Some(spec_joined(moves, to))));
                    assert(edges.subrange(0, k as int + 1) =~= edges.subrange(0, k as int).push(
                        edges[k as int],
                    ));
                    assert(graph.edge_list() =~= outer + edges.subrange(0, k as int + 1));
                }
                k += 1;
            }
            proof {
                let longer = self.transitions@.subrange(0, from as int + 1);
                assert(longer.drop_last() == self.transitions@.subrange(0, from as int));
                assert(longer.last() == self.transitions@[from as int]);
                let edges = joined_edges(from, moves);
                assert(edges.subrange(0, k as int) == edges);
            }
            from += 1;
        }
        assert(self.transitions@.subrange(0, from as int) == self.transitions@);
        graph
    }
}

/// A graph as far as a picture needs it: the labels of the nodes and the
/// edges.
pub struct GraphModel {
    pub labels: Seq<Option<Seq<char>>>,
    pub edges: Seq<(IndNode, IndNode, Option<Seq<char>>)>,
}

/// The label of the root of `regex`: the symbol, or the sign of the
/// operator.
pub open spec fn spec_label(regex: ReOperator) -> Seq<char> {
    match regex {
        ReOperator::Char(c) => seq![c],
        ReOperator::Concat(_, _) => "\u{b7}"@,
        ReOperator::Or(_, _) => "|"@,
        ReOperator::KleeneStar(_) => "*"@,
    }
}

/// `model` with the tree of `regex` added: a node for the root, then the
/// trees of its children from left to right, each with an edge from the
/// root. The second part of the result is the node of the root.
pub open spec fn spec_tree_graph(regex: ReOperator, model: GraphModel) -> (GraphModel, IndNode)
    decreases regex,
{
    let top = model.labels.len() as usize;
    let rooted = GraphModel { labels: model.labels.push(Some(spec_label(regex))), ..model };
    match regex {
        ReOperator::Char(_) => (rooted, top),
        ReOperator::KleeneStar(inner) => {
            let (built, child) = spec_tree_graph(*inner, rooted);
            (GraphModel { edges: built.edges.push((top, child, None)), ..built }, top)
        },
        ReOperator::Concat(left, right) | ReOperator::Or(left, right) => {
            let (first, l) = spec_tree_graph(*left, rooted);
            let linked = GraphModel { edges: first.edges.push((top, l, None)), ..first };
            let (second, r) = spec_tree_graph(*right, linked);
            (GraphModel { edges: second.edges.push((top, r, None)), ..second }, top)
        },
    }
}

impl Graph {
    /// The labels of the nodes and the edges.
    pub open spec fn model(&self) -> GraphModel {
        GraphModel { labels: self.node_labels(), edges: self.edge_list() }
    }
}

impl ReOperator {
    /// The label of the root: the symbol, or the sign of the operator.
    pub fn label(&self) -> (label: String)
        ensures
            label@ == spec_label(*self),
    {
        match self {
            ReOperator::Char(c) => char_text(*c),
            ReOperator::Concat(_, _) => String::from_str("\u{b7}"),
            ReOperator::Or(_, _) => String::from_str("|"),
            ReOperator::KleeneStar(_) => String::from_str("*"),
        }
    }

    /// Adds the tree to `graph` and returns the node of its root.
    pub fn build_recursive_graph(&self, graph: &mut Graph) -> (top: IndNode)
        requires
            old(graph).wf(),
        ensures
            final(graph).wf(),
            (final(graph).model(), top) == spec_tree_graph(*self, old(graph).model()),
            final(graph).start_node == old(graph).start_node,
            top < final(graph).nodes@.len(),
            old(graph).nodes@.len() <= final(graph).nodes@.len(),
        decreases *self,
    {
        let top = graph.add_node(Some(self.label()));
        assert(graph.nodes@.len() == graph.node_labels().len());
        match self {
            ReOperator::Char(_) => {},
            ReOperator::KleeneStar(inner) => {
                let child = inner.build_recursive_graph(graph);
                let _ = graph.add_edge(top, child, None);
            },
            ReOperator::Concat(left, right) | ReOperator::Or(left, right) => {
                let l = left.build_recursive_graph(graph);
                let _ = graph.add_edge(top, l, None);
                let r = right.build_recursive_graph(graph);
                let _ = graph.add_edge(top, r, None);
            },
        }
        top
    }

    /// Whether `graph` is the graph of the tree, with the root as its first
    /// node.
    pub open spec fn is_graph(&self, graph: &Graph) -> bool {
        &&& graph.model() == spec_tree_graph(
            *self,
            GraphModel { labels: Seq::empty(), edges: Seq::empty() },
        ).0
        &&& graph.start_node is None
    }

    /// The graph of the tree, with the root as its first node.
    pub fn into_graph(&self) -> (graph: Graph)
        ensures
            graph.wf(),
            self.is_graph(&graph),
    {
        let mut graph = Graph::new();
        assert(graph.node_labels() =~= Seq::empty());
        assert(graph.edge_list() =~= Seq::empty());
        let _ = self.build_recursive_graph(&mut graph);
        graph
    }
}

} // verus!
