use vstd::prelude::*;
use crate::graph::{Graph, Node};

verus! {

impl Graph {
    /// Every edge that leaves a node of `r` ends in `r`.
    pub open spec fn closed(&self, r: Set<int>) -> bool {
        forall|m: int, k: int|
            r.contains(m) && 0 <= m < self.len() && 0 <= k < self.edges(m).len() ==> r.contains(
                #[trigger] self.edges(m)[k] as int,
            )
    }

    /// Node `m` is reached from node `s` by following edges: it lies in every
    /// closed set of nodes that holds `s`.
    pub open spec fn reachable(&self, s: int, m: int) -> bool {
        forall|r: Set<int>| #[trigger] self.closed(r) && r.contains(s) ==> r.contains(m)
    }

    /// The nodes reached from node `s`.
    pub open spec fn reach(&self, s: int) -> Set<int> {
        Set::new(|m: int| 0 <= m < self.len() && self.reachable(s, m))
    }

    /// No two nodes of `r` share a label.
    pub open spec fn distinct_on(&self, r: Set<int>) -> bool {
        forall|i: int, j: int|
            r.contains(i) && r.contains(j) && #[trigger] self.label(i) == #[trigger] self.label(j)
                ==> i == j
    }

    /// The labels of the nodes of `r`.
    pub open spec fn labels_of(&self, r: Set<int>) -> Set<Seq<char>> {
        Set::new(|l: Seq<char>| exists|m: int| r.contains(m) && 0 <= m < self.len() && #[trigger] self.label(m) == l)
    }

    /// The nodes reached from a node form a closed set that holds that node.
    pub proof fn lemma_reach_closed(&self, s: int)
        requires
            self.wf(),
            0 <= s < self.len(),
        ensures
            self.closed(self.reach(s)),
            self.reach(s).contains(s),
    {
        assert forall|m: int, k: int|
            self.reach(s).contains(m) && 0 <= m < self.len() && 0 <= k < self.edges(m).len()
                implies self.reach(s).contains(#[trigger] self.edges(m)[k] as int) by {
            let t = self.edges(m)[k] as int;
            assert forall|r: Set<int>| #[trigger] self.closed(r) && r.contains(s) implies r.contains(
                t,
            ) by {
                assert(r.contains(m));
            }
        }
    }

    /// A walk from nodes of a closed set visits labels of nodes of that set only.
    pub proof fn lemma_walk_within(&self, r: Set<int>, stack: Seq<usize>, seen: Seq<Seq<char>>)
        requires
            self.wf(),
            self.closed(r),
            forall|j: int| 0 <= j < stack.len() ==> r.contains(#[trigger] stack[j] as int),
        ensures
            forall|i: int|
                0 <= i < self.walk(stack, seen).len() ==> self.labels_of(r).contains(
                    #[trigger] self.walk(stack, seen)[i],
                ),
        decreases self.unseen(seen), stack.len(),
    {
        if stack.len() > 0 {
            let n = stack.last() as int;
            let rest = stack.drop_last();
            assert(r.contains(stack[stack.len() - 1] as int));
            if n >= self.len() || seen.contains(self.label(n)) {
                self.lemma_walk_within(r, rest, seen);
                assert(self.walk(stack, seen) == self.walk(rest, seen));
            } else {
                let l = self.label(n);
                let next = rest + self.edges(n).reverse();
                self.lemma_unseen_push(seen, l, n, self.len() as int);
                assert forall|j: int| 0 <= j < next.len() implies r.contains(
                    #[trigger] next[j] as int,
                ) by {
                    if j >= rest.len() {
                        assert(next[j] == self.edges(n)[self.edges(n).len() - 1 - (j - rest.len())]);
                    } else {
                        assert(next[j] == stack[j]);
                    }
                }
                self.lemma_walk_within(r, next, seen.push(l));
                let w = self.walk(next, seen.push(l));
                assert(self.walk(stack, seen) == seq![l] + w);
                assert forall|i: int| 0 <= i < self.walk(stack, seen).len() implies self.labels_of(
                    r,
                ).contains(#[trigger] self.walk(stack, seen)[i]) by {
                    if i == 0 {
                        assert(self.label(n) == l);
                    } else {
                        assert(self.walk(stack, seen)[i] == w[i - 1]);
                    }
                }
            }
        }
    }

    /// Where no two nodes reached from `s` share a label, a traversal from
    /// `s` with no label seen before visits exactly the labels of the nodes
    /// reached from `s`.
    pub proof fn lemma_visits_reach(&self, s: Node)
        requires
            self.wf(),
            self.holds(s),
            self.distinct_on(self.reach(s.id as int)),
        ensures
            self.visits(s, Seq::empty()).to_set() == self.labels_of(self.reach(s.id as int)),
    {
        let r = self.reach(s.id as int);
        let stack = seq![s.id];
        let seen = Seq::<Seq<char>>::empty();
        let w = self.walk(stack, seen);
        self.lemma_reach_closed(s.id as int);
        self.lemma_walk_within(r, stack, seen);
        self.lemma_walk_closed(r, stack, seen);
        assert(seen + w =~= w);
        let v = Set::new(|i: int| r.contains(i) && w.contains(self.label(i)));
        assert(self.closed(v)) by {
            assert forall|m: int, k: int|
                v.contains(m) && 0 <= m < self.len() && 0 <= k < self.edges(m).len() implies v.contains(
                #[trigger] self.edges(m)[k] as int,
            ) by {
                assert(r.contains(self.edges(m)[k] as int));
            }
        }
        assert(v.contains(s.id as int)) by {
            assert(stack[0] == s.id);
        }
        assert forall|l: Seq<char>| w.to_set().contains(l) <==> self.labels_of(r).contains(l) by {
            if w.to_set().contains(l) {
                let i = choose|i: int| 0 <= i < w.len() && w[i] == l;
                assert(self.labels_of(r).contains(w[i]));
            }
            if self.labels_of(r).contains(l) {
                let m = choose|m: int| r.contains(m) && 0 <= m < self.len() && #[trigger] self.label(m) == l;
                assert(self.reachable(s.id as int, m));
                assert(v.contains(m));
            }
        }
        assert(w.to_set() =~= self.labels_of(r));
    }
}

} // verus!
