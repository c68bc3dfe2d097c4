use vstd::prelude::*;
use crate::graph::{Graph, Node};

verus! {

/// The character sequences of a sequence of strings.
pub open spec fn label_views(v: Seq<String>) -> Seq<Seq<char>> {
    v.map_values(|s: String| s@)
}

/// Appending to a sequence adds exactly the appended item to what it contains.
pub proof fn lemma_contains_push(s: Seq<Seq<char>>, l: Seq<char>, x: Seq<char>)
    ensures
        s.push(l).contains(x) == (s.contains(x) || x == l),
{
    if s.contains(x) {
        let i = choose|i: int| 0 <= i < s.len() && s[i] == x;
        assert(s.push(l)[i] == x);
    }
    if x == l {
        assert(s.push(l)[s.len() as int] == l);
    }
    if s.push(l).contains(x) {
        let i = choose|i: int| 0 <= i < s.push(l).len() && s.push(l)[i] == x;
        if i < s.len() {
            assert(s[i] == x);
        }
    }
}

impl Graph {
    /// Number of nodes among the first `k` whose label is not in `seen`.
    pub open spec fn unseen_below(&self, seen: Seq<Seq<char>>, k: int) -> nat
        decreases k,
    {
        if k <= 0 {
            0
        } else {
            self.unseen_below(seen, k - 1) + if seen.contains(self.label(k - 1)) {
                0nat
            } else {
                1nat
            }
        }
    }

    /// Number of nodes whose label is not in `seen`.
    pub open spec fn unseen(&self, seen: Seq<Seq<char>>) -> nat {
        self.unseen_below(seen, self.len() as int)
    }

    /// Marking a new label seen never adds unseen nodes, and removes node `n`
    /// where `n` carries that label.
    pub proof fn lemma_unseen_push(&self, seen: Seq<Seq<char>>, l: Seq<char>, n: int, k: int)
        requires
            !seen.contains(l),
        ensures
            self.unseen_below(seen.push(l), k) <= self.unseen_below(seen, k),
            0 <= n < k && self.label(n) == l ==> self.unseen_below(seen.push(l), k)
                < self.unseen_below(seen, k),
        decreases k,
    {
        if k > 0 {
            self.lemma_unseen_push(seen, l, n, k - 1);
            lemma_contains_push(seen, l, self.label(k - 1));
        }
    }

    /// Labels reached by a depth-first walk. `stack` holds the nodes still to
    /// reach, the next one last; `seen` the labels already visited. A node
    /// whose label was seen is skipped; otherwise its label is visited and its
    /// edges are reached next, the first edge first.
    pub open spec fn walk(&self, stack: Seq<usize>, seen: Seq<Seq<char>>) -> Seq<Seq<char>>
        decreases self.unseen(seen), stack.len(),
        via Self::walk_decreases
    {
        if stack.len() == 0 {
            Seq::empty()
        } else {
            let n = stack.last() as int;
            let rest = stack.drop_last();
            if n >= self.len() || seen.contains(self.label(n)) {
                self.walk(rest, seen)
            } else {
                seq![self.label(n)] + self.walk(
                    rest + self.edges(n).reverse(),
                    seen.push(self.label(n)),
                )
            }
        }
    }

    #[via_fn]
    proof fn walk_decreases(&self, stack: Seq<usize>, seen: Seq<Seq<char>>) {
        if stack.len() > 0 {
            let n = stack.last() as int;
            if !(n >= self.len() || seen.contains(self.label(n))) {
                self.lemma_unseen_push(seen, self.label(n), n, self.len() as int);
            }
        }
    }

    /// A walk visits no label twice, and none that was seen before it.
    pub proof fn lemma_walk_fresh(&self, stack: Seq<usize>, seen: Seq<Seq<char>>)
        ensures
            self.walk(stack, seen).no_duplicates(),
            forall|i: int|
                0 <= i < self.walk(stack, seen).len() ==> !seen.contains(
                    #[trigger] self.walk(stack, seen)[i],
                ),
        decreases self.unseen(seen), stack.len(),
    {
        if stack.len() > 0 {
            let n = stack.last() as int;
            let rest = stack.drop_last();
            if n >= self.len() || seen.contains(self.label(n)) {
                self.lemma_walk_fresh(rest, seen);
            } else {
                let l = self.label(n);
                let next = rest + self.edges(n).reverse();
                self.lemma_unseen_push(seen, l, n, self.len() as int);
                self.lemma_walk_fresh(next, seen.push(l));
                let w = self.walk(next, seen.push(l));
                assert(self.walk(stack, seen) == seq![l] + w);
                assert forall|i: int| 0 <= i < w.len() implies !seen.contains(#[trigger] w[i])
                    && w[i] != l by {
                    lemma_contains_push(seen, l, w[i]);
                    assert(seen.push(l)[seen.len() as int] == l);
                }
                assert forall|i: int, j: int|
                    0 <= i < self.walk(stack, seen).len() && 0 <= j < self.walk(stack, seen).len()
                        && i != j implies self.walk(stack, seen)[i] != self.walk(stack, seen)[j] by {
                    if i > 0 && j > 0 {
                        assert(w[i - 1] != w[j - 1]);
                    } else if i == 0 {
                        assert(w[j - 1] != l);
                    } else {
                        assert(w[i - 1] != l);
                    }
                }
                assert forall|i: int| 0 <= i < self.walk(stack, seen).len() implies !seen.contains(
                    #[trigger] self.walk(stack, seen)[i],
                ) by {
                    if i > 0 {
                        assert(self.walk(stack, seen)[i] == w[i - 1]);
                    }
                }
            }
        }
    }

    /// A walk from nodes of a closed set `r` in which no two nodes share a
    /// label is closed: every node on the stack has its label seen or
    /// visited, and so has every edge target of a node of `r` whose label it
    /// visits.
    pub proof fn lemma_walk_closed(&self, r: Set<int>, stack: Seq<usize>, seen: Seq<Seq<char>>)
        requires
            self.wf(),
            self.closed(r),
            self.distinct_on(r),
            forall|j: int| 0 <= j < stack.len() ==> #[trigger] stack[j] < self.len() && r.contains(
                stack[j] as int,
            ),
        ensures
            forall|j: int|
                0 <= j < stack.len() ==> (seen + self.walk(stack, seen)).contains(
                    self.label(#[trigger] stack[j] as int),
                ),
            forall|m: int, k: int|
                r.contains(m) && 0 <= m < self.len() && 0 <= k < self.edges(m).len() && self.walk(
                    stack,
                    seen,
                ).contains(self.label(m)) ==> (seen + self.walk(stack, seen)).contains(
                    self.label(#[trigger] self.edges(m)[k] as int),
                ),
        decreases self.unseen(seen), stack.len(),
    {
        if stack.len() > 0 {
            let n = stack.last() as int;
            let rest = stack.drop_last();
            let all = seen + self.walk(stack, seen);
            if seen.contains(self.label(n)) {
                self.lemma_walk_closed(r, rest, seen);
                assert(self.walk(stack, seen) == self.walk(rest, seen));
                assert forall|j: int| 0 <= j < stack.len() implies all.contains(
                    self.label(#[trigger] stack[j] as int),
                ) by {
                    if j < rest.len() {
                        assert(rest[j] == stack[j]);
                    } else {
                        let i = choose|i: int| 0 <= i < seen.len() && seen[i] == self.label(n);
                        assert(all[i] == self.label(n));
                    }
                }
            } else {
                let l = self.label(n);
                let next = rest + self.edges(n).reverse();
                self.lemma_unseen_push(seen, l, n, self.len() as int);
                assert forall|j: int| 0 <= j < next.len() implies #[trigger] next[j] < self.len()
                    && r.contains(next[j] as int) by {
                    if j >= rest.len() {
                        assert(next[j] == self.edges(n)[self.edges(n).len() - 1 - (j - rest.len())]);
                    } else {
                        assert(next[j] == stack[j]);
                    }
                }
                assert(r.contains(stack[stack.len() - 1] as int));
                self.lemma_walk_closed(r, next, seen.push(l));
                let w = self.walk(next, seen.push(l));
                assert(self.walk(stack, seen) == seq![l] + w);
                assert(all =~= seen.push(l) + w);
                assert forall|j: int| 0 <= j < stack.len() implies all.contains(
                    self.label(#[trigger] stack[j] as int),
                ) by {
                    if j < rest.len() {
                        assert(next[j] == stack[j]);
                    } else {
                        assert(all[seen.len() as int] == l);
                    }
                }
                assert forall|m: int, k: int|
                    r.contains(m) && 0 <= m < self.len() && 0 <= k < self.edges(m).len() && self.walk(
                        stack,
                        seen,
                    ).contains(self.label(m)) implies all.contains(
                    self.label(#[trigger] self.edges(m)[k] as int),
                ) by {
                    if self.label(m) == l {
                        assert(m == n);
                        let j = rest.len() + (self.edges(n).len() - 1 - k);
                        assert(next[j] == self.edges(n)[k]);
                    } else {
                        let i = choose|i: int|
                            0 <= i < self.walk(stack, seen).len() && self.walk(stack, seen)[i]
                                == self.label(m);
                        assert(i > 0);
                        assert(w[i - 1] == self.label(m));
                        assert(w.contains(self.label(m)));
                    }
                }
            }
        }
    }

    /// Marking more labels seen never adds unseen nodes.
    pub proof fn lemma_unseen_grow(&self, seen: Seq<Seq<char>>, more: Seq<Seq<char>>, k: int)
        ensures
            self.unseen_below(seen + more, k) <= self.unseen_below(seen, k),
        decreases k,
    {
        if k > 0 {
            self.lemma_unseen_grow(seen, more, k - 1);
            let l = self.label(k - 1);
            if seen.contains(l) {
                let i = choose|i: int| 0 <= i < seen.len() && seen[i] == l;
                assert((seen + more)[i] == l);
            }
        }
    }

    /// Marking more labels seen, whichever they are, never adds unseen nodes.
    pub proof fn lemma_unseen_grow_any(&self, seen: Seq<Seq<char>>)
        ensures
            forall|more: Seq<Seq<char>>| #[trigger] self.unseen(seen + more) <= self.unseen(seen),
    {
        assert forall|more: Seq<Seq<char>>| #[trigger] self.unseen(seen + more) <= self.unseen(
            seen,
        ) by {
            self.lemma_unseen_grow(seen, more, self.len() as int);
        }
    }

    /// Recursive pre-order traversal of node `n`: where its label is not
    /// seen yet, visit it, mark it seen, then traverse its edges in order,
    /// each with every label visited so far marked seen.
    pub open spec fn dfs(&self, n: usize, seen: Seq<Seq<char>>) -> Seq<Seq<char>>
        decreases self.unseen(seen), 0nat, 0nat,
        via Self::dfs_decreases
    {
        if n >= self.len() || seen.contains(self.label(n as int)) {
            Seq::empty()
        } else {
            seq![self.label(n as int)] + self.dfs_edges(
                self.edges(n as int),
                seen.push(self.label(n as int)),
            )
        }
    }

    /// Recursive traversal of the targets `es`, in order.
    pub open spec fn dfs_edges(&self, es: Seq<usize>, seen: Seq<Seq<char>>) -> Seq<Seq<char>>
        decreases self.unseen(seen), 1nat, es.len(),
        via Self::dfs_edges_decreases
    {
        if es.len() == 0 {
            Seq::empty()
        } else {
            let v = self.dfs(es[0], seen);
            v + self.dfs_edges(es.drop_first(), seen + v)
        }
    }

    #[via_fn]
    proof fn dfs_decreases(&self, n: usize, seen: Seq<Seq<char>>) {
        if !(n >= self.len() || seen.contains(self.label(n as int))) {
            self.lemma_unseen_push(seen, self.label(n as int), n as int, self.len() as int);
        }
    }

    #[via_fn]
    proof fn dfs_edges_decreases(&self, es: Seq<usize>, seen: Seq<Seq<char>>) {
        self.lemma_unseen_grow_any(seen);
    }

    /// Walking `n` on top of `stack` traverses `n` recursively, then walks
    /// the rest with what that visited marked seen.
    pub proof fn lemma_walk_dfs(&self, stack: Seq<usize>, n: usize, seen: Seq<Seq<char>>)
        ensures
            self.walk(stack.push(n), seen) == self.dfs(n, seen) + self.walk(
                stack,
                seen + self.dfs(n, seen),
            ),
        decreases self.unseen(seen), 0nat, 0nat,
    {
        assert(stack.push(n).last() == n && stack.push(n).drop_last() == stack);
        if n >= self.len() || seen.contains(self.label(n as int)) {
            assert(seen + Seq::<Seq<char>>::empty() =~= seen);
            assert(Seq::<Seq<char>>::empty() + self.walk(stack, seen) =~= self.walk(stack, seen));
        } else {
            let l = self.label(n as int);
            self.lemma_unseen_push(seen, l, n as int, self.len() as int);
            self.lemma_walk_dfs_edges(stack, self.edges(n as int), seen.push(l));
            let d = self.dfs_edges(self.edges(n as int), seen.push(l));
            assert(seen + (seq![l] + d) =~= seen.push(l) + d);
            assert(seq![l] + d + self.walk(stack, seen.push(l) + d) =~= seq![l] + (d + self.walk(
                stack,
                seen.push(l) + d,
            )));
        }
    }

    /// Walking the targets `es`, first target on top, over `stack` traverses
    /// them recursively in order, then walks the rest.
    pub proof fn lemma_walk_dfs_edges(&self, stack: Seq<usize>, es: Seq<usize>, seen: Seq<Seq<char>>)
        ensures
            self.walk(stack + es.reverse(), seen) == self.dfs_edges(es, seen) + self.walk(
                stack,
                seen + self.dfs_edges(es, seen),
            ),
        decreases self.unseen(seen), 1nat, es.len(),
    {
        if es.len() == 0 {
            assert(stack + es.reverse() =~= stack);
            assert(seen + Seq::<Seq<char>>::empty() =~= seen);
            assert(Seq::<Seq<char>>::empty() + self.walk(stack, seen) =~= self.walk(stack, seen));
        } else {
            let rest = es.drop_first();
            let below = stack + rest.reverse();
            assert(stack + es.reverse() =~= below.push(es[0]));
            self.lemma_walk_dfs(below, es[0], seen);
            let v = self.dfs(es[0], seen);
            self.lemma_unseen_grow(seen, v, self.len() as int);
            self.lemma_walk_dfs_edges(stack, rest, seen + v);
            let d = self.dfs_edges(rest, seen + v);
            assert(seen + v + d =~= seen + (v + d));
            assert(v + (d + self.walk(stack, seen + v + d)) =~= v + d + self.walk(
                stack,
                seen + (v + d),
            ));
        }
    }

    /// The stack-based walk from one node is the recursive traversal.
    pub proof fn lemma_visits_dfs(&self, start: Node, seen: Seq<Seq<char>>)
        ensures
            self.visits(start, seen) == self.dfs(start.id, seen),
    {
        let e = Seq::<usize>::empty();
        assert(e.push(start.id) =~= seq![start.id]);
        self.lemma_walk_dfs(e, start.id, seen);
        assert(self.dfs(start.id, seen) + Seq::<Seq<char>>::empty() =~= self.dfs(start.id, seen));
    }

    /// The labels that a traversal from `start` visits, in order, when the
    /// labels in `seen` were visited before; the same as the recursive
    /// `dfs(start.id, seen)`, as `lemma_visits_dfs` shows.
    pub open spec fn visits(&self, start: Node, seen: Seq<Seq<char>>) -> Seq<Seq<char>> {
        self.walk(seq![start.id], seen)
    }
}

/// Whether `seen` holds a string equal to `label`.
pub fn contains_label(seen: &Vec<String>, label: &String) -> (r: bool)
    ensures
        r == label_views(seen@).contains(label@),
{
    let mut i: usize = 0;
    while i < seen.len()
        invariant
            i <= seen@.len(),
            forall|j: int| 0 <= j < i ==> seen@[j]@ != label@,
        decreases seen@.len() - i,
    {
        if seen[i] == *label {
            assert(label_views(seen@)[i as int] == label@);
            return true;
        }
        i = i + 1;
    }
    proof {
        if label_views(seen@).contains(label@) {
            let j = choose|j: int|
                0 <= j < label_views(seen@).len() && label_views(seen@)[j] == label@;
            assert(seen@[j]@ == label@);
        }
    }
    false
}

/// `f` returned `Ok` on some string whose characters are `label`.
pub open spec fn accepted<F: Fn(&str) -> Result<(), E>, E>(f: F, label: Seq<char>) -> bool {
    exists|s: &str| s@ == label && #[trigger] f.ensures((s,), Ok::<(), E>(()))
}

/// `f` returned `Err(e)` on some string whose characters are `label`.
pub open spec fn refused<F: Fn(&str) -> Result<(), E>, E>(f: F, label: Seq<char>, e: E) -> bool {
    exists|s: &str| s@ == label && #[trigger] f.ensures((s,), Err::<(), E>(e))
}

impl Graph {
    /// Pops nodes off `stack` until one whose label is not in `seen`, pushes
    /// that node's edges so that the first edge comes off next, and returns
    /// its label, which the caller is to mark seen; `None` once the stack
    /// runs out.
    fn next_visit(&self, stack: &mut Vec<usize>, seen: &Vec<String>) -> (r: Option<String>)
        requires
            self.wf(),
            forall|k: int| 0 <= k < old(stack)@.len() ==> #[trigger] old(stack)@[k] < self.len(),
        ensures
            forall|k: int| 0 <= k < final(stack)@.len() ==> #[trigger] final(stack)@[k] < self.len(),
            r is None ==> self.walk(old(stack)@, label_views(seen@)) == Seq::<Seq<char>>::empty()
                && final(stack)@.len() == 0,
            r matches Some(l) ==> self.walk(old(stack)@, label_views(seen@)) == seq![l@]
                + self.walk(final(stack)@, label_views(seen@).push(l@)) && self.unseen(
                label_views(seen@).push(l@),
            ) < self.unseen(label_views(seen@)),
    {
        let ghost sv = label_views(seen@);
        while stack.len() > 0
            invariant
                self.wf(),
                forall|k: int| 0 <= k < stack@.len() ==> #[trigger] stack@[k] < self.len(),
                sv == label_views(seen@),
                self.walk(stack@, sv) == self.walk(old(stack)@, sv),
            decreases stack@.len(),
        {
            let ghost stack0 = stack@;
            let n = stack.pop().unwrap();
            assert(stack0.last() == n && stack0.drop_last() == stack@);
            let label = self.label_of(Node { id: n }).to_owned();
            if !contains_label(seen, &label) {
                let es = self.edge_targets(Node { id: n });
                let ghost rest = stack@;
                let mut k: usize = es.len();
                while k > 0
                    invariant
                        k <= es@.len(),
                        es@ == self.edges(n as int),
                        n < self.len(),
                        self.wf(),
                        stack@ == rest + es@.subrange(k as int, es@.len() as int).reverse(),
                        forall|j: int| 0 <= j < rest.len() ==> #[trigger] rest[j] < self.len(),
                    decreases k,
                {
                    k = k - 1;
                    stack.push(es[k]);
                    assert(es@.subrange(k as int, es@.len() as int).reverse() =~= es@.subrange(
                        k + 1,
                        es@.len() as int,
                    ).reverse().push(es@[k as int]));
                }
                assert(es@.subrange(0, es@.len() as int) =~= es@);
                assert forall|j: int| 0 <= j < stack@.len() implies #[trigger] stack@[j]
                    < self.len() by {
                    if j >= rest.len() {
                        let t = j - rest.len();
                        assert(stack@[j] == es@.reverse()[t]);
                        assert(es@.reverse()[t] == es@[es@.len() - 1 - t]);
                    }
                }
                proof {
                    self.lemma_unseen_push(sv, label@, n as int, self.len() as int);
                }
                return Some(label);
            }
        }
        None
    }
}

impl Node {
    /// Visits, depth first and first edge first, every node reachable from
    /// this one whose label is not in `seen`, each label once. Returns the
    /// visited labels in visiting order, and adds them to `seen` in that order.
    pub fn visit_order(&self, arena: &Graph, seen: &mut Vec<String>) -> (r: Vec<String>)
        requires
            arena.wf(),
            arena.holds(*self),
        ensures
            label_views(r@) == arena.visits(*self, label_views(old(seen)@)),
            label_views(r@) == arena.dfs(self.id, label_views(old(seen)@)),
            final(seen)@ == old(seen)@ + r@,
            label_views(r@).no_duplicates(),
            forall|i: int|
                0 <= i < r@.len() ==> !label_views(old(seen)@).contains(#[trigger] r@[i]@),
    {
        let mut out: Vec<String> = Vec::new();
        let mut stack: Vec<usize> = Vec::new();
        stack.push(self.id);
        assert(stack@ == seq![self.id]);
        loop
            invariant
                arena.wf(),
                forall|k: int| 0 <= k < stack@.len() ==> #[trigger] stack@[k] < arena.len(),
                seen@ == old(seen)@ + out@,
                label_views(out@) + arena.walk(stack@, label_views(seen@)) == arena.visits(
                    *self,
                    label_views(old(seen)@),
                ),
            ensures
                stack@.len() == 0,
            decreases arena.unseen(label_views(seen@)),
        {
            let ghost out0 = out@;
            let ghost walk0 = arena.walk(stack@, label_views(seen@));
            match arena.next_visit(&mut stack, seen) {
                None => {
                    break ;
                },
                Some(label) => {
                    seen.push(label.clone());
                    assert(label_views(seen@) =~= label_views(old(seen)@ + out@).push(label@));
                    out.push(label);
                    assert(label_views(out@) =~= label_views(out0).push(label@));
                    assert(label_views(out@) + arena.walk(stack@, label_views(seen@))
                        =~= label_views(out0) + walk0);
                },
            }
        }
        assert(label_views(out@) + arena.walk(stack@, label_views(seen@)) =~= label_views(out@));
        proof {
            arena.lemma_visits_dfs(*self, label_views(old(seen)@));
            arena.lemma_walk_fresh(seq![self.id], label_views(old(seen)@));
            assert forall|i: int| 0 <= i < out@.len() implies !label_views(old(seen)@).contains(
                #[trigger] out@[i]@,
            ) by {
                assert(label_views(out@)[i] == out@[i]@);
            }
        }
        out
    }

    /// Hands `f`, depth first and first edge first, the label of every node
    /// reachable from this one whose label is not in `seen`, each label once,
    /// and marks each label seen once `f` has accepted it. Stops at the first
    /// error of `f` and returns it: the labels accepted before stay in
    /// `seen`, the one that `f` failed on is not added.
    pub fn traverse<F, E>(&self, arena: &Graph, f: F, seen: &mut Vec<String>) -> (r: Result<(), E>)
        where
            F: Fn(&str) -> Result<(), E>,
        requires
            arena.wf(),
            arena.holds(*self),
            forall|s: &str| #[trigger] f.requires((s,)),
        ensures
            old(seen)@.len() <= final(seen)@.len() <= old(seen)@.len() + arena.visits(
                *self,
                label_views(old(seen)@),
            ).len(),
            label_views(final(seen)@) == label_views(old(seen)@) + arena.visits(
                *self,
                label_views(old(seen)@),
            ).take(final(seen)@.len() - old(seen)@.len()),
            forall|i: int|
                0 <= i < final(seen)@.len() - old(seen)@.len() ==> accepted(
                    f,
                    #[trigger] arena.visits(*self, label_views(old(seen)@))[i],
                ),
            r is Ok ==> final(seen)@.len() == old(seen)@.len() + arena.visits(
                *self,
                label_views(old(seen)@),
            ).len(),
            r matches Err(e) ==> final(seen)@.len() < old(seen)@.len() + arena.visits(
                *self,
                label_views(old(seen)@),
            ).len() && refused(
                f,
                arena.visits(*self, label_views(old(seen)@))[final(seen)@.len() - old(
                    seen,
                )@.len()],
                e,
            ),
    {
        let ghost all = arena.visits(*self, label_views(old(seen)@));
        let ghost done: Seq<Seq<char>> = Seq::empty();
        let mut outcome: Result<(), E> = Ok(());
        let mut stack: Vec<usize> = Vec::new();
        stack.push(self.id);
        assert(stack@ == seq![self.id]);
        loop
            invariant_except_break
                outcome is Ok,
                done + arena.walk(stack@, label_views(seen@)) == all,
            invariant
                arena.wf(),
                forall|s: &str| #[trigger] f.requires((s,)),
                forall|k: int| 0 <= k < stack@.len() ==> #[trigger] stack@[k] < arena.len(),
                label_views(seen@) == label_views(old(seen)@) + done,
                done.len() <= all.len(),
                all.take(done.len() as int) == done,
                forall|i: int| 0 <= i < done.len() ==> accepted(f, #[trigger] done[i]),
            ensures
                outcome is Ok ==> done == all,
                outcome matches Err(e) ==> done.len() < all.len() && refused(
                    f,
                    all[done.len() as int],
                    e,
                ),
            decreases arena.unseen(label_views(seen@)),
        {
            let ghost seen0 = seen@;
            match arena.next_visit(&mut stack, seen) {
                None => {
                    assert(done + arena.walk(stack@, label_views(seen@)) =~= done);
                    break ;
                },
                Some(label) => {
                    assert(all =~= done.push(label@) + arena.walk(
                        stack@,
                        label_views(seen@).push(label@),
                    ));
                    assert(all[done.len() as int] == label@);
                    let d: &str = label.as_str();
                    let res = f(d);
                    match res {
                        Ok(u) => {
                            assert(res == Ok::<(), E>(u));
                            assert(f.ensures((d,), Ok::<(), E>(())));
                            seen.push(label);
                            proof {
                                done = done.push(label@);
                                assert(label_views(seen@) =~= label_views(seen0).push(label@));
                                assert(all.take(done.len() as int) =~= done);
                                assert(done[done.len() - 1] == d@);
                            }
                        },
                        Err(e) => {
                            assert(f.ensures((d,), Err::<(), E>(e)));
                            outcome = Err(e);
                            break ;
                        },
                    }
                },
            }
        }
        proof {
            assert(label_views(seen@).len() == seen@.len());
            assert(label_views(old(seen)@).len() == old(seen)@.len());
            assert forall|i: int| 0 <= i < done.len() implies #[trigger] all[i] == done[i] by {
                assert(all.take(done.len() as int)[i] == all[i]);
            }
        }
        outcome
    }
}

} // verus!
