use vstd::prelude::*;
use crate::graph::{Graph, Node};

verus! {

/// The one-character label `c`.
pub open spec fn letter(c: char) -> Seq<char> {
    seq![c]
}

/// `g` holds, from `root` on, the six nodes "A" to "F" that `init` adds:
/// A has edges to B, C and D; C has edges to E, F and back to A; the others
/// have none.
pub open spec fn is_example(g: Graph, root: Node) -> bool {
    let r = root.id as int;
    &&& g.wf()
    &&& r + 6 <= g.len() <= usize::MAX
    &&& g.label(r) == letter('A')
    &&& g.label(r + 1) == letter('B')
    &&& g.label(r + 2) == letter('C')
    &&& g.label(r + 3) == letter('D')
    &&& g.label(r + 4) == letter('E')
    &&& g.label(r + 5) == letter('F')
    &&& g.edges(r) == seq![(r + 1) as usize, (r + 2) as usize, (r + 3) as usize]
    &&& g.edges(r + 1) == Seq::<usize>::empty()
    &&& g.edges(r + 2) == seq![(r + 4) as usize, (r + 5) as usize, r as usize]
    &&& g.edges(r + 3) == Seq::<usize>::empty()
    &&& g.edges(r + 4) == Seq::<usize>::empty()
    &&& g.edges(r + 5) == Seq::<usize>::empty()
}

/// Builds in `arena` a graph of six nodes with a cycle through its root, and
/// returns the root. Every node is created before any edge is added; the last
/// edge, from C back to the root A, closes the cycle.
pub fn init(arena: &mut Graph) -> (root: Node)
    requires
        old(arena).wf(),
        old(arena).len() + 6 <= usize::MAX,
    ensures
        is_example(*final(arena), root),
        root.id == old(arena).len(),
        final(arena).len() == old(arena).len() + 6,
        forall|i: int| 0 <= i < old(arena).len() ==> #[trigger] final(arena)@[i] == old(arena)@[i],
{
    proof {
        reveal_strlit("A");
        reveal_strlit("B");
        reveal_strlit("C");
        reveal_strlit("D");
        reveal_strlit("E");
        reveal_strlit("F");
    }
    let ghost g0 = *arena;
    let root = Node::new("A", arena);
    let b = Node::new("B", arena);
    let c = Node::new("C", arena);
    let d = Node::new("D", arena);
    let e = Node::new("E", arena);
    let f = Node::new("F", arena);
    let ghost g1 = *arena;

    root.add_edge(b, arena);
    root.add_edge(c, arena);
    root.add_edge(d, arena);

    c.add_edge(e, arena);
    c.add_edge(f, arena);
    c.add_edge(root, arena);
    assert(arena.edges(root.id as int) =~= seq![b.id, c.id, d.id]);
    assert(arena.edges(c.id as int) =~= seq![e.id, f.id, root.id]);
    assert forall|i: int| 0 <= i < g0.len() implies #[trigger] arena@[i] == g0@[i] by {
        assert(g1@[i] == g0@[i]);
    }
    assert(arena.label(root.id as int) == letter('A'));
    assert(arena.label(b.id as int) == letter('B'));
    assert(arena.label(c.id as int) == letter('C'));
    assert(arena.label(d.id as int) == letter('D'));
    assert(arena.label(e.id as int) == letter('E'));
    assert(arena.label(f.id as int) == letter('F'));
    root
}

} // verus!
