use vstd::prelude::*;

verus! {

/// The failures that the graph operations report.
#[derive(Debug, Clone, Copy, PartialEq, Eq, Structural)]
pub enum GraphError {
    /// `first` was asked of a node that has no outgoing edge.
    EmptyEdgeList,
}

/// The data of one node: its label and its outgoing edges, in order.
struct Vertex {
    label: String,
    edges: Vec<usize>,
}

/// An arena that owns every node of a graph.
pub struct Graph {
    vertices: Vec<Vertex>,
}

/// A handle on a node of a `Graph`: the node's position in the arena.
#[derive(Debug, Clone, Copy, PartialEq, Eq, Structural)]
pub struct Node {
    pub id: usize,
}

impl View for Graph {
    /// Each node as its label and its outgoing edges, by position.
    type V = Seq<(Seq<char>, Seq<usize>)>;

    closed spec fn view(&self) -> Seq<(Seq<char>, Seq<usize>)> {
        self.vertices@.map_values(|v: Vertex| (v.label@, v.edges@))
    }
}

impl Graph {
    /// Number of nodes in the arena.
    pub open spec fn len(&self) -> nat {
        self@.len()
    }

    /// Label of node `i`.
    pub open spec fn label(&self, i: int) -> Seq<char> {
        self@[i].0
    }

    /// Outgoing edges of node `i`, as node positions, in order.
    pub open spec fn edges(&self, i: int) -> Seq<usize> {
        self@[i].1
    }

    /// Whether `n` names a node of this arena.
    pub open spec fn holds(&self, n: Node) -> bool {
        n.id < self.len()
    }

    /// Every edge leads to a node of the arena.
    pub open spec fn wf(&self) -> bool {
        forall|i: int, k: int|
            0 <= i < self.len() && 0 <= k < self.edges(i).len() ==> #[trigger] self.edges(i)[k]
                < self.len()
    }

    /// An arena with no node.
    pub fn new() -> (g: Graph)
        ensures
            g.wf(),
            g.len() == 0,
    {
        Graph { vertices: Vec::new() }
    }

    /// Number of nodes in the arena.
    pub fn node_count(&self) -> (r: usize)
        ensures
            r == self.len(),
    {
        self.vertices.len()
    }

    /// The label of node `n`.
    pub fn label_of(&self, n: Node) -> (r: &str)
        requires
            self.holds(n),
        ensures
            r@ == self.label(n.id as int),
    {
        self.vertices[n.id].label.as_str()
    }

    /// The outgoing edges of node `n`, as node positions, in order.
    pub fn edge_targets(&self, n: Node) -> (r: &Vec<usize>)
        requires
            self.holds(n),
        ensures
            r@ == self.edges(n.id as int),
    {
        &self.vertices[n.id].edges
    }

    /// The outgoing edges of node `n`, in order.
    pub fn edges_of(&self, n: Node) -> (r: Vec<Node>)
        requires
            self.holds(n),
        ensures
            r@.len() == self.edges(n.id as int).len(),
            forall|k: int| 0 <= k < r@.len() ==> #[trigger] r@[k].id == self.edges(n.id as int)[k],
    {
        let es = &self.vertices[n.id].edges;
        let mut r: Vec<Node> = Vec::new();
        let mut k: usize = 0;
        while k < es.len()
            invariant
                k <= es@.len(),
                es@ == self.edges(n.id as int),
                r@.len() == k,
                forall|j: int| 0 <= j < k ==> #[trigger] r@[j].id == es@[j],
            decreases es@.len() - k,
        {
            r.push(Node { id: es[k] });
            k = k + 1;
        }
        r
    }
}

impl Node {
    /// Allocates a node labelled `datum`, with no edges, in `arena`.
    pub fn new(datum: &str, arena: &mut Graph) -> (r: Node)
        requires
            old(arena).wf(),
        ensures
            final(arena).wf(),
            r.id == old(arena).len(),
            final(arena)@ == old(arena)@.push((datum@, Seq::<usize>::empty())),
    {
        let id = arena.vertices.len();
        arena.vertices.push(Vertex { label: datum.to_owned(), edges: Vec::new() });
        proof {
            assert forall|i: int, k: int|
                0 <= i < arena.len() && 0 <= k < arena.edges(i).len() implies #[trigger] arena.edges(
                i,
            )[k] < arena.len() by {
                if i < id {
                    assert(arena.edges(i) == old(arena).edges(i));
                }
            }
        }
        assert(arena@ =~= old(arena)@.push((datum@, Seq::<usize>::empty())));
        Node { id }
    }

    /// Appends an edge from this node to `target`, also where other nodes
    /// already point to this one, and where `target` is this node itself.
    pub fn add_edge(&self, target: Node, arena: &mut Graph)
        requires
            old(arena).wf(),
            old(arena).holds(*self),
            old(arena).holds(target),
        ensures
            final(arena).wf(),
            final(arena)@ == old(arena)@.update(
                self.id as int,
                (old(arena).label(self.id as int), old(arena).edges(self.id as int).push(target.id)),
            ),
    {
        arena.vertices[self.id].edges.push(target.id);
        proof {
            assert forall|i: int, k: int|
                0 <= i < arena.len() && 0 <= k < arena.edges(i).len() implies #[trigger] arena.edges(
                i,
            )[k] < arena.len() by {
                if i != self.id {
                    assert(arena.edges(i) == old(arena).edges(i));
                } else if k < old(arena).edges(i).len() {
                    assert(arena.edges(i)[k] == old(arena).edges(i)[k]);
                }
            }
        }
        assert(arena@ =~= old(arena)@.update(
            self.id as int,
            (old(arena).label(self.id as int), old(arena).edges(self.id as int).push(target.id)),
        ));
    }

    /// The target of this node's first edge.
    pub fn first(&self, arena: &Graph) -> (r: Result<Node, GraphError>)
        requires
            arena.holds(*self),
        ensures
            arena.edges(self.id as int).len() == 0 <==> r == Err::<Node, GraphError>(
                GraphError::EmptyEdgeList,
            ),
            arena.edges(self.id as int).len() > 0 ==> r == Ok::<Node, GraphError>(
                Node { id: arena.edges(self.id as int)[0] },
            ),
    {
        let es = &arena.vertices[self.id].edges;
        if es.len() == 0 {
            Err(GraphError::EmptyEdgeList)
        } else {
            Ok(Node { id: es[0] })
        }
    }
}

} // verus!
