use vstd::prelude::*;
use crate::graph::{Graph, Node};
use crate::example::{is_example, letter};
use crate::traverse::{label_views, lemma_contains_push};

verus! {

/// The order in which a traversal from the root of the graph that `init`
/// builds visits its labels: the third edge of A, to D, is followed only after
/// the whole of C, whose edge back to A is skipped.
pub open spec fn example_order() -> Seq<Seq<char>> {
    seq![letter('A'), letter('B'), letter('C'), letter('E'), letter('F'), letter('D')]
}

proof fn lemma_letters_differ(a: char, b: char)
    requires
        a != b,
    ensures
        letter(a) != letter(b),
{
    assert(letter(a)[0] != letter(b)[0]);
}

/// A traversal from the root of the graph that `init` builds, with no label
/// seen before, visits A, B, C, E, F and then D.
pub proof fn lemma_example_order(g: Graph, root: Node)
    requires
        is_example(g, root),
    ensures
        g.visits(root, Seq::empty()) == example_order(),
{
    let r = root.id as int;
    let (a, b, c, d, e, f) = (
        letter('A'),
        letter('B'),
        letter('C'),
        letter('D'),
        letter('E'),
        letter('F'),
    );
    let (ia, ib, ic, id, ie, iff) = (
        r as usize,
        (r + 1) as usize,
        (r + 2) as usize,
        (r + 3) as usize,
        (r + 4) as usize,
        (r + 5) as usize,
    );
    lemma_letters_differ('A', 'B');
    lemma_letters_differ('A', 'C');
    lemma_letters_differ('A', 'D');
    lemma_letters_differ('A', 'E');
    lemma_letters_differ('A', 'F');
    lemma_letters_differ('B', 'C');
    lemma_letters_differ('B', 'D');
    lemma_letters_differ('B', 'E');
    lemma_letters_differ('B', 'F');
    lemma_letters_differ('C', 'D');
    lemma_letters_differ('C', 'E');
    lemma_letters_differ('C', 'F');
    lemma_letters_differ('D', 'E');
    lemma_letters_differ('D', 'F');
    lemma_letters_differ('E', 'F');
    let s0 = Seq::<Seq<char>>::empty();
    let s1 = s0.push(a);
    let s2 = s1.push(b);
    let s3 = s2.push(c);
    let s4 = s3.push(e);
    let s5 = s4.push(f);
    let s6 = s5.push(d);
    lemma_contains_push(s0, a, b);
    lemma_contains_push(s1, b, c);
    lemma_contains_push(s0, a, c);
    lemma_contains_push(s2, c, e);
    lemma_contains_push(s1, b, e);
    lemma_contains_push(s0, a, e);
    lemma_contains_push(s3, e, f);
    lemma_contains_push(s2, c, f);
    lemma_contains_push(s1, b, f);
    lemma_contains_push(s0, a, f);
    lemma_contains_push(s4, f, a);
    lemma_contains_push(s3, e, a);
    lemma_contains_push(s2, c, a);
    lemma_contains_push(s1, b, a);
    lemma_contains_push(s0, a, a);
    lemma_contains_push(s4, f, d);
    lemma_contains_push(s3, e, d);
    lemma_contains_push(s2, c, d);
    lemma_contains_push(s1, b, d);
    lemma_contains_push(s0, a, d);
    let t1 = seq![id, ic, ib];
    let t2 = seq![id, ic];
    let t3 = seq![id, ia, iff, ie];
    let t4 = seq![id, ia, iff];
    let t5 = seq![id, ia];
    let t6 = seq![id];
    let t7 = Seq::<usize>::empty();
    assert(g.walk(t7, s6) == Seq::<Seq<char>>::empty());
    assert(t6.drop_last() + g.edges(id as int).reverse() =~= t7);
    assert(g.walk(t6, s5) == seq![d]);
    assert(t5.drop_last() =~= t6);
    assert(g.walk(t5, s5) == seq![d]);
    assert(t4.drop_last() + g.edges(iff as int).reverse() =~= t5);
    assert(g.walk(t4, s4) == seq![f, d]);
    assert(t3.drop_last() + g.edges(ie as int).reverse() =~= t4);
    assert(g.walk(t3, s3) == seq![e, f, d]);
    assert(t2.drop_last() + g.edges(ic as int).reverse() =~= t3);
    assert(g.walk(t2, s2) == seq![c, e, f, d]);
    assert(t1.drop_last() + g.edges(ib as int).reverse() =~= t2);
    assert(g.walk(t1, s1) == seq![b, c, e, f, d]);
    assert(seq![ia].drop_last() + g.edges(ia as int).reverse() =~= t1);
    assert(g.walk(seq![ia], s0) =~= example_order());
}

/// A traversal from the root of the graph that `init` builds visits each of
/// its six labels exactly once, though a cycle runs through the root.
pub proof fn lemma_example_visits_each_once(g: Graph, root: Node)
    requires
        is_example(g, root),
    ensures
        g.visits(root, Seq::empty()).len() == 6,
        g.visits(root, Seq::empty()).no_duplicates(),
        forall|i: int|
            0 <= i < 6 ==> g.visits(root, Seq::empty()).contains(#[trigger] g.label(root.id + i)),
{
    lemma_example_order(g, root);
    g.lemma_walk_fresh(seq![root.id], Seq::empty());
    let w = g.visits(root, Seq::empty());
    assert(w[0] == g.label(root.id + 0));
    assert(w[1] == g.label(root.id + 1));
    assert(w[2] == g.label(root.id + 2));
    assert(w[5] == g.label(root.id + 3));
    assert(w[3] == g.label(root.id + 4));
    assert(w[4] == g.label(root.id + 5));
}

/// A traversal from a node without edges, with no label seen before, visits
/// that node's label alone.
pub proof fn lemma_leaf_visits_itself(g: Graph, n: Node)
    requires
        g.wf(),
        g.holds(n),
        g.edges(n.id as int).len() == 0,
    ensures
        g.visits(n, Seq::empty()) == seq![g.label(n.id as int)],
{
    let s1 = Seq::<Seq<char>>::empty().push(g.label(n.id as int));
    assert(seq![n.id].drop_last() + g.edges(n.id as int).reverse() =~= Seq::<usize>::empty());
    assert(g.walk(Seq::<usize>::empty(), s1) == Seq::<Seq<char>>::empty());
    assert(g.visits(n, Seq::empty()) =~= seq![g.label(n.id as int)]);
}

/// Two traversals from one node, each with a fresh set of seen labels, over a
/// graph that has not changed between them, visit the same labels in the same
/// order.
pub proof fn lemma_traversal_repeatable(
    before: Graph,
    after: Graph,
    start: Node,
    first: Seq<String>,
    second: Seq<String>,
)
    requires
        after@ == before@,
        label_views(first) == before.visits(start, Seq::empty()),
        label_views(second) == after.visits(start, Seq::empty()),
    ensures
        label_views(first) == label_views(second),
{
    assert(before.walk(seq![start.id], Seq::empty()) == after.walk(seq![start.id], Seq::empty()))
        by {
        lemma_walk_same_view(before, after, seq![start.id], Seq::empty());
    }
}

/// A walk depends on the graph's nodes and edges alone.
proof fn lemma_walk_same_view(g: Graph, h: Graph, stack: Seq<usize>, seen: Seq<Seq<char>>)
    requires
        g@ == h@,
    ensures
        g.walk(stack, seen) == h.walk(stack, seen),
    decreases g.unseen(seen), stack.len(),
{
    if stack.len() > 0 {
        let n = stack.last() as int;
        let rest = stack.drop_last();
        if n >= g.len() || seen.contains(g.label(n)) {
            lemma_walk_same_view(g, h, rest, seen);
        } else {
            g.lemma_unseen_push(seen, g.label(n), n, g.len() as int);
            lemma_walk_same_view(g, h, rest + g.edges(n).reverse(), seen.push(g.label(n)));
        }
    }
}

/// Once an edge from `x` to `t` has been appended, where `x` was already
/// reached from `start` (and so may be pointed to by other nodes), and where
/// no two nodes then reached from `start` share a label: a traversal from
/// `start` with no label seen before visits the labels it visited before the
/// change, together with the label of every node reached from `t`.
pub proof fn lemma_added_edge_followed(before: Graph, after: Graph, x: Node, t: Node, start: Node)
    requires
        before.wf(),
        before.holds(x),
        before.holds(t),
        before.holds(start),
        after@ == before@.update(
            x.id as int,
            (before.label(x.id as int), before.edges(x.id as int).push(t.id)),
        ),
        before.reachable(start.id as int, x.id as int),
        after.distinct_on(after.reach(start.id as int)),
    ensures
        after.visits(start, Seq::empty()).to_set() == before.visits(start, Seq::empty()).to_set()
            + after.labels_of(after.reach(t.id as int)),
{
    let s = start.id as int;
    let xi = x.id as int;
    let ti = t.id as int;
    assert(after.len() == before.len());
    assert forall|i: int| 0 <= i < after.len() implies #[trigger] after.label(i) == before.label(i)
        && (i != xi ==> after.edges(i) == before.edges(i)) by {}
    assert(after.edges(xi) == before.edges(xi).push(t.id));
    assert forall|i: int, k: int|
        0 <= i < after.len() && 0 <= k < after.edges(i).len() implies #[trigger] after.edges(i)[k]
        < after.len() by {
        if i != xi {
            assert(after.edges(i) == before.edges(i));
        } else if k < before.edges(i).len() {
            assert(after.edges(i)[k] == before.edges(i)[k]);
        }
    }
    assert(after.wf());
    // A set closed under the new edges is closed under the old ones.
    assert forall|r: Set<int>| #[trigger] after.closed(r) implies before.closed(r) by {
        assert forall|m: int, k: int|
            r.contains(m) && 0 <= m < before.len() && 0 <= k < before.edges(m).len() implies r.contains(
            #[trigger] before.edges(m)[k] as int,
        ) by {
            if m == xi {
                assert(after.edges(m)[k] == before.edges(m)[k]);
            } else {
                assert(after.edges(m) == before.edges(m));
            }
            assert(after.edges(m)[k] == before.edges(m)[k]);
        }
    }
    // What was reached before is reached still; so is `t`, and all it reaches.
    assert forall|m: int| before.reach(s).contains(m) implies after.reach(s).contains(m) by {
        assert forall|r: Set<int>| #[trigger] after.closed(r) && r.contains(s) implies r.contains(m) by {
            assert(before.closed(r));
        }
    }
    assert(before.reach(s).contains(xi));
    assert(after.reach(s).contains(xi));
    let last = after.edges(xi).len() - 1;
    assert(after.edges(xi)[last] == t.id);
    assert forall|m: int| after.reach(ti).contains(m) implies after.reach(s).contains(m) by {
        assert forall|r: Set<int>| #[trigger] after.closed(r) && r.contains(s) implies r.contains(m) by {
            assert(after.reachable(s, xi));
            assert(r.contains(xi));
            assert(r.contains(after.edges(xi)[last] as int));
        }
    }
    // What is reached now was reached before, or is reached from `t`.
    before.lemma_reach_closed(s);
    after.lemma_reach_closed(ti);
    let u = before.reach(s) + after.reach(ti);
    assert(after.closed(u)) by {
        assert forall|m: int, k: int|
            u.contains(m) && 0 <= m < after.len() && 0 <= k < after.edges(m).len() implies u.contains(
            #[trigger] after.edges(m)[k] as int,
        ) by {
            if after.reach(ti).contains(m) {
            } else if m == xi && k == last {
                assert(after.reach(ti).contains(ti));
            } else {
                assert(after.edges(m)[k] == before.edges(m)[k]);
                assert(before.reach(s).contains(before.edges(m)[k] as int));
            }
        }
    }
    assert(u.contains(s));
    assert forall|m: int| after.reach(s).contains(m) implies u.contains(m) by {
        assert(after.reachable(s, m));
        assert(after.closed(u) && u.contains(s));
    }
    assert(after.reach(s) =~= u);
    assert forall|i: int, j: int|
        before.reach(s).contains(i) && before.reach(s).contains(j) && #[trigger] before.label(i)
            == #[trigger] before.label(j) implies i == j by {
        assert(after.reach(s).contains(i) && after.reach(s).contains(j));
        assert(after.label(i) == after.label(j));
    }
    before.lemma_visits_reach(start);
    after.lemma_visits_reach(start);
    assert forall|l: Seq<char>|
        after.labels_of(after.reach(s)).contains(l) <==> (before.labels_of(before.reach(s))
            + after.labels_of(after.reach(ti))).contains(l) by {
        if after.labels_of(after.reach(s)).contains(l) {
            let m = choose|m: int|
                after.reach(s).contains(m) && 0 <= m < after.len() && #[trigger] after.label(m) == l;
            if before.reach(s).contains(m) {
                assert(before.label(m) == l);
            }
        }
        if before.labels_of(before.reach(s)).contains(l) {
            let m = choose|m: int|
                before.reach(s).contains(m) && 0 <= m < before.len() && #[trigger] before.label(m)
                    == l;
            assert(after.label(m) == l);
        }
    }
    assert(after.labels_of(after.reach(s)) =~= before.labels_of(before.reach(s))
        + after.labels_of(after.reach(ti)));
}

} // verus!
