use crate::graph::{step, symmetric, well_shaped, Graph};
use vstd::laws_eq::obeys_concrete_eq;
use vstd::prelude::*;

verus! {

/// A non-empty node sequence whose consecutive nodes are joined by adjacency entries.
pub open spec fn is_walk(adj: Seq<Seq<usize>>, p: Seq<usize>) -> bool {
    &&& p.len() > 0
    &&& forall|i: int| 0 <= i < p.len() ==> #[trigger] p[i] < adj.len()
    &&& forall|i: int| 0 <= i < p.len() - 1 ==> #[trigger] step(adj, p[i], p[i + 1])
}

/// A walk from `a` to `b`.
pub open spec fn walk_between(adj: Seq<Seq<usize>>, p: Seq<usize>, a: usize, b: usize) -> bool {
    is_walk(adj, p) && p[0] == a && p.last() == b
}

/// `b` can be reached from `a` by following adjacency entries.
pub open spec fn reachable(adj: Seq<Seq<usize>>, a: usize, b: usize) -> bool {
    exists|p: Seq<usize>| #[trigger] walk_between(adj, p, a, b)
}

/// Every node reachable from `root`.
pub open spec fn reach_set(adj: Seq<Seq<usize>>, root: usize) -> Set<usize> {
    Set::new(|x: usize| reachable(adj, root, x))
}

/// The elements of a sequence, as a set.
pub open spec fn elems(s: Seq<usize>) -> Set<usize> {
    Set::new(|x: usize| s.contains(x))
}

/// Where a breadth-first search stands when it calls a hook: the graph, the start
/// node, the nodes taken from the queue so far, the nodes ever enqueued, the
/// adjacency entries handed to `on_edge` so far (as a set, and as the sequence
/// of calls), the queue itself (every node ever enqueued, in order, of which
/// the first `head` have left it), and the nodes whose expansion has ended.
pub struct SearchState {
    pub adj: Seq<Seq<usize>>,
    pub root: usize,
    pub popped: Set<usize>,
    pub marked: Set<usize>,
    pub reported: Set<(usize, usize)>,
    pub queue: Seq<usize>,
    pub head: nat,
    pub edge_calls: Seq<(usize, usize)>,
    pub finished: Seq<usize>,
}

impl SearchState {
    pub open spec fn after_pop(self, u: usize) -> SearchState {
        SearchState { popped: self.popped.insert(u), head: self.head + 1, ..self }
    }

    pub open spec fn after_edge(self, u: usize, v: usize) -> SearchState {
        SearchState {
            marked: self.marked.insert(v),
            reported: self.reported.insert((u, v)),
            edge_calls: self.edge_calls.push((u, v)),
            queue: if self.marked.contains(v) {
                self.queue
            } else {
                self.queue.push(v)
            },
            ..self
        }
    }

    pub open spec fn after_post(self, u: usize) -> SearchState {
        SearchState { finished: self.finished.push(u), ..self }
    }

    /// The sets agree with the queue.
    pub open spec fn consistent(self) -> bool {
        &&& self.popped == elems(self.queue.take(self.head as int))
        &&& self.marked == elems(self.queue)
        &&& self.queue.no_duplicates()
        &&& 0 < self.queue.len()
        &&& self.head <= self.queue.len()
        &&& self.queue[0] == self.root
    }
}

/// The three hooks a traversal calls. `ready` is what the visitor keeps true of
/// itself relative to the search; each hook states how the search moves on.
pub trait Visitor: Sized {
    spec fn ready(&self, st: SearchState) -> bool;

    /// Marks the visitor held when the search began; no hook changes them.
    spec fn start_marks(&self) -> Seq<bool>;

    /// Called when `u` leaves the queue.
    fn pre_visit(&mut self, u: usize, st: Ghost<SearchState>)
        requires
            old(self).ready(st@),
            st@.consistent(),
            st@.head < st@.queue.len(),
            st@.queue[st@.head as int] == u,
            st@.finished.len() == st@.head,
            u < st@.adj.len(),
            st@.marked.contains(u),
            !st@.popped.contains(u),
            st@.popped.subset_of(st@.marked),
        ensures
            final(self).ready(st@.after_pop(u)),
            final(self).start_marks() == old(self).start_marks(),
    ;

    /// Called once all neighbours of `u` have been looked at.
    fn post_visit(&mut self, u: usize, st: Ghost<SearchState>)
        requires
            old(self).ready(st@),
            st@.consistent(),
            0 < st@.head,
            st@.queue[st@.head - 1] == u,
            st@.finished.len() + 1 == st@.head,
            u < st@.adj.len(),
            st@.popped.contains(u),
        ensures
            final(self).ready(st@.after_post(u)),
            final(self).start_marks() == old(self).start_marks(),
    ;

    /// Called for a neighbour `v` of `u` (the node being expanded) that has not
    /// finished its own expansion; `v` is enqueued right after if it is new.
    fn on_edge(&mut self, u: usize, v: usize, st: Ghost<SearchState>)
        requires
            old(self).ready(st@),
            st@.consistent(),
            0 < st@.head,
            st@.queue[st@.head - 1] == u,
            st@.finished.len() + 1 == st@.head,
            u < st@.adj.len(),
            v < st@.adj.len(),
            step(st@.adj, u, v),
            st@.popped.contains(u),
            !st@.popped.contains(v) || v == u,
            st@.popped.subset_of(st@.marked),
            st@.marked.contains(u),
        ensures
            final(self).ready(st@.after_edge(u, v)),
            final(self).start_marks() == old(self).start_marks(),
    ;
}

/// The `on_edge` calls made while expanding `x`, for its first `k` entries,
/// when `done` lists the nodes expanded before it: one call per entry, in list
/// order, unless the entry's target was expanded already.
pub open spec fn entry_calls(adj: Seq<Seq<usize>>, done: Seq<usize>, x: usize, k: int) -> Seq<
    (usize, usize),
>
    decreases k,
{
    if k <= 0 {
        Seq::empty()
    } else {
        let t = adj[x as int][k - 1];
        let prev = entry_calls(adj, done, x, k - 1);
        if done.contains(t) {
            prev
        } else {
            prev.push((x, t))
        }
    }
}

/// All `on_edge` calls of a search that expanded the nodes of `order`, in order.
pub open spec fn search_calls(adj: Seq<Seq<usize>>, order: Seq<usize>) -> Seq<(usize, usize)>
    decreases order.len(),
{
    if order.len() == 0 {
        Seq::empty()
    } else {
        let done = order.drop_last();
        search_calls(adj, done) + entry_calls(adj, done, order.last(), adj[order.last() as int].len() as int)
    }
}

/// Number of `true` entries.
pub open spec fn count_true(s: Seq<bool>) -> nat
    decreases s.len(),
{
    if s.len() == 0 {
        0
    } else {
        count_true(s.drop_last()) + if s.last() {
            1nat
        } else {
            0nat
        }
    }
}

proof fn lemma_count_true_bound(s: Seq<bool>)
    ensures
        count_true(s) <= s.len(),
    decreases s.len(),
{
    if s.len() > 0 {
        lemma_count_true_bound(s.drop_last());
    }
}

proof fn lemma_count_true_set(s: Seq<bool>, i: int)
    requires
        0 <= i < s.len(),
        !s[i],
    ensures
        count_true(s.update(i, true)) == count_true(s) + 1,
    decreases s.len(),
{
    let t = s.update(i, true);
    if i == s.len() - 1 {
        assert(t.drop_last() =~= s.drop_last());
    } else {
        assert(t.drop_last() =~= s.drop_last().update(i, true));
        lemma_count_true_set(s.drop_last(), i);
    }
}

/// A walk extended by one adjacency entry is a walk.
proof fn lemma_walk_push(adj: Seq<Seq<usize>>, p: Seq<usize>, v: usize)
    requires
        is_walk(adj, p),
        v < adj.len(),
        step(adj, p.last(), v),
    ensures
        is_walk(adj, p.push(v)),
{
    let q = p.push(v);
    assert forall|i: int| 0 <= i < q.len() - 1 implies #[trigger] step(adj, q[i], q[i + 1]) by {
        if i < p.len() - 1 {
            assert(step(adj, p[i], p[i + 1]));
        }
    }
    assert forall|i: int| 0 <= i < q.len() implies #[trigger] q[i] < adj.len() by {
        if i < p.len() {
            assert(p[i] < adj.len());
        }
    }
}

/// A walk that starts in a set closed under adjacency stays in it.
proof fn lemma_closed_walk(adj: Seq<Seq<usize>>, s: Set<usize>, p: Seq<usize>)
    requires
        is_walk(adj, p),
        s.contains(p[0]),
        forall|x: usize, k: int|
            s.contains(x) && x < adj.len() && 0 <= k < adj[x as int].len() ==> s.contains(
                #[trigger] adj[x as int][k],
            ),
    ensures
        s.contains(p.last()),
    decreases p.len(),
{
    if p.len() > 1 {
        let q = p.drop_last();
        assert(is_walk(adj, q)) by {
            assert forall|i: int| 0 <= i < q.len() - 1 implies #[trigger] step(adj, q[i], q[i + 1]) by {
                assert(step(adj, p[i], p[i + 1]));
            }
            assert forall|i: int| 0 <= i < q.len() implies #[trigger] q[i] < adj.len() by {
                assert(p[i] < adj.len());
            }
        }
        lemma_closed_walk(adj, s, q);
        let i = p.len() - 2;
        assert(step(adj, p[i], p[i + 1]));
        assert(p[i] < adj.len());
        let k = choose|k: int| 0 <= k < adj[p[i] as int].len() && adj[p[i] as int][k] == p[i + 1];
    }
}

/// Breadth-first traversal from `n`, calling the visitor's hooks as it goes.
/// Every node is enqueued at most once. Each node taken from the queue gets
/// `pre_visit`, then one `on_edge` per adjacency entry, in list order, whose
/// target has not been expanded yet, then `post_visit`, before the next node
/// is taken. Afterwards exactly the nodes reachable from `n` have been taken
/// from the queue. Returned, as ghost values: the order in which nodes left
/// the queue, and the entries handed to `on_edge`.
pub fn bfs<T: Eq, G: Graph<T>, V: Visitor>(g: &G, n: usize, vis: &mut V) -> (trace: Ghost<
    (Seq<usize>, Set<(usize, usize)>),
>)
    requires
        g.wf(),
        n < g.labels().len(),
        old(vis).ready(
            SearchState {
                adj: g.adjacency(),
                root: n,
                popped: Set::empty(),
                marked: set![n],
                reported: Set::empty(),
                queue: seq![n],
                head: 0,
                edge_calls: Seq::empty(),
                finished: Seq::empty(),
            },
        ),
    ensures
        final(vis).ready(
            SearchState {
                adj: g.adjacency(),
                root: n,
                popped: reach_set(g.adjacency(), n),
                marked: reach_set(g.adjacency(), n),
                reported: trace@.1,
                queue: trace@.0,
                head: trace@.0.len(),
                edge_calls: search_calls(g.adjacency(), trace@.0),
                finished: trace@.0,
            },
        ),
        final(vis).start_marks() == old(vis).start_marks(),
        trace@.0.no_duplicates(),
        elems(trace@.0) == reach_set(g.adjacency(), n),
        forall|j: int, k: int|
            0 <= j < trace@.0.len() && 0 <= k < g.adjacency()[trace@.0[j] as int].len()
                ==> trace@.1.contains((trace@.0[j], #[trigger] g.adjacency()[trace@.0[j] as int][k]))
                || trace@.0.take(j).contains(g.adjacency()[trace@.0[j] as int][k]),
{
    let ghost adj = g.adjacency();
    proof {
        g.lemma_shape();
    }
    let num = g.num_of_nodes();
    let mut marked = all_false(num);
    let mut processed = all_false(num);
    let mut queue: Vec<usize> = Vec::new();
    queue.push(n);
    proof {
        lemma_count_true_set(marked@, n as int);
        assert(count_true(marked@) == 0) by {
            lemma_count_all_false(num as nat);
        }
    }
    marked.set(n, true);
    proof {
        assert(queue@ =~= Seq::<usize>::empty().push(n));
        lemma_elems_push(Seq::empty(), n);
        assert(elems(Seq::<usize>::empty()) =~= Set::empty());
        assert(elems(queue@) =~= set![n]);
        assert(elems(queue@.take(0)) =~= Set::empty());
        assert(queue@.take(0) =~= Seq::<usize>::empty());
        assert(walk_between(adj, seq![n], n, n));
    }
    let ghost mut rep: Set<(usize, usize)> = Set::empty();
    let mut head: usize = 0;
    while head < queue.len()
        invariant
            g.wf(),
            adj == g.adjacency(),
            well_shaped(adj, g.labels()),
            num == adj.len(),
            n < num,
            marked@.len() == num,
            processed@.len() == num,
            count_true(marked@) == queue.len(),
            head <= queue.len(),
            queue.len() > 0,
            queue@.no_duplicates(),
            queue@[0] == n,
            forall|j: int| 0 <= j < queue.len() ==> #[trigger] queue@[j] < num,
            forall|x: int| 0 <= x < num ==> marked@[x] == queue@.contains(x as usize),
            forall|x: int|
                0 <= x < num ==> processed@[x] == queue@.take(head as int).contains(x as usize),
            forall|j: int, k: int|
                0 <= j < head && 0 <= k < adj[queue@[j] as int].len() ==> marked@[#[trigger] adj[queue@[j] as int][k] as int],
            forall|j: int| 0 <= j < queue.len() ==> reachable(adj, n, #[trigger] queue@[j]),
            forall|j: int, k: int|
                0 <= j < head && 0 <= k < adj[queue@[j] as int].len() ==> rep.contains(
                    (queue@[j], #[trigger] adj[queue@[j] as int][k]),
                ) || queue@.take(j).contains(adj[queue@[j] as int][k]),
            vis.start_marks() == old(vis).start_marks(),
            vis.ready(
                SearchState {
                    adj,
                    root: n,
                    popped: elems(queue@.take(head as int)),
                    marked: elems(queue@),
                    reported: rep,
                    queue: queue@,
                    head: head as nat,
                    edge_calls: search_calls(adj, queue@.take(head as int)),
                    finished: queue@.take(head as int),
                },
            ),
        decreases num - head,
    {
        proof {
            lemma_count_true_bound(marked@);
        }
        let u = queue[head];
        let ghost st = SearchState {
            adj,
            root: n,
            popped: elems(queue@.take(head as int)),
            marked: elems(queue@),
            reported: rep,
            queue: queue@,
            head: head as nat,
            edge_calls: search_calls(adj, queue@.take(head as int)),
            finished: queue@.take(head as int),
        };
        proof {
            assert(queue@.contains(u));
            assert(!queue@.take(head as int).contains(u)) by {
                if queue@.take(head as int).contains(u) {
                    let j = choose|j: int| 0 <= j < head && queue@.take(head as int)[j] == u;
                    assert(queue@[j] == queue@[head as int]);
                }
            }
            assert forall|x: usize| st.popped.contains(x) implies st.marked.contains(x) by {
                let j = choose|j: int| 0 <= j < head && queue@.take(head as int)[j] == x;
                assert(queue@[j] == x);
            }
        }
        vis.pre_visit(u, Ghost(st));
        proof {
            assert(queue@.take(head + 1) =~= queue@.take(head as int).push(u));
            lemma_elems_push(queue@.take(head as int), u);
        }
        let nbrs = g.edges(u);
        let mut k: usize = 0;
        while k < nbrs.len()
            invariant
                g.wf(),
                adj == g.adjacency(),
                well_shaped(adj, g.labels()),
                num == adj.len(),
                n < num,
                nbrs@ == adj[u as int],
                k <= nbrs.len(),
                u == queue@[head as int],
                u < num,
                marked@.len() == num,
                processed@.len() == num,
                count_true(marked@) == queue.len(),
                head < queue.len(),
                queue@.no_duplicates(),
                queue@[0] == n,
                forall|j: int| 0 <= j < queue.len() ==> #[trigger] queue@[j] < num,
                forall|x: int| 0 <= x < num ==> marked@[x] == queue@.contains(x as usize),
                forall|x: int|
                    0 <= x < num ==> processed@[x] == queue@.take(head as int).contains(x as usize),
                forall|j: int, k2: int|
                    0 <= j < head && 0 <= k2 < adj[queue@[j] as int].len() ==> marked@[#[trigger] adj[queue@[j] as int][k2] as int],
                forall|k2: int| 0 <= k2 < k ==> marked@[#[trigger] adj[u as int][k2] as int],
                forall|j: int| 0 <= j < queue.len() ==> reachable(adj, n, #[trigger] queue@[j]),
                forall|j: int, k2: int|
                    0 <= j < head && 0 <= k2 < adj[queue@[j] as int].len() ==> rep.contains(
                        (queue@[j], #[trigger] adj[queue@[j] as int][k2]),
                    ) || queue@.take(j).contains(adj[queue@[j] as int][k2]),
                forall|k2: int|
                    0 <= k2 < k ==> rep.contains((u, #[trigger] adj[u as int][k2]))
                        || queue@.take(head as int).contains(adj[u as int][k2]),
                vis.start_marks() == old(vis).start_marks(),
                vis.ready(
                    SearchState {
                        adj,
                        root: n,
                        popped: elems(queue@.take(head + 1)),
                        marked: elems(queue@),
                        reported: rep,
                        queue: queue@,
                        head: (head + 1) as nat,
                        edge_calls: search_calls(adj, queue@.take(head as int)) + entry_calls(
                            adj,
                            queue@.take(head as int),
                            u,
                            k as int,
                        ),
                        finished: queue@.take(head as int),
                    },
                ),
            decreases nbrs.len() - k,
        {
            let v = nbrs[k];
            proof {
                assert(adj[u as int][k as int] < num);
                assert(step(adj, u, v));
            }
            let ghost st2 = SearchState {
                adj,
                root: n,
                popped: elems(queue@.take(head + 1)),
                marked: elems(queue@),
                reported: rep,
                queue: queue@,
                head: (head + 1) as nat,
                edge_calls: search_calls(adj, queue@.take(head as int)) + entry_calls(
                    adj,
                    queue@.take(head as int),
                    u,
                    k as int,
                ),
                finished: queue@.take(head as int),
            };
            if !processed[v] {
                proof {
                    assert(st2.popped.contains(u)) by {
                        assert(queue@.take(head + 1)[head as int] == u);
                    }
                    assert(!st2.popped.contains(v) || v == u) by {
                        if st2.popped.contains(v) && v != u {
                            let tk = queue@.take(head + 1);
                            let j = choose|j: int| 0 <= j < tk.len() && tk[j] == v;
                            assert(j < head);
                            assert(queue@.take(head as int)[j] == v);
                        }
                    }
                    assert forall|x: usize| st2.popped.contains(x) implies st2.marked.contains(x) by {
                        let tk = queue@.take(head + 1);
                        let j = choose|j: int| 0 <= j < tk.len() && tk[j] == x;
                        assert(queue@[j] == x);
                    }
                    assert(st2.marked.contains(u));
                }
                vis.on_edge(u, v, Ghost(st2));
                proof {
                    rep = rep.insert((u, v));
                    let done = queue@.take(head as int);
                    assert(!done.contains(v));
                    assert(entry_calls(adj, done, u, k + 1) == entry_calls(adj, done, u, k as int).push((u, v)));
                    assert(search_calls(adj, done) + entry_calls(adj, done, u, k + 1) =~= (search_calls(adj, done)
                        + entry_calls(adj, done, u, k as int)).push((u, v)));
                }
            } else {
                proof {
                    let tk = queue@.take(head as int);
                    let j = choose|j: int| 0 <= j < tk.len() && tk[j] == v;
                    assert(queue@[j] == v);
                    assert(tk.contains(v));
                    assert(entry_calls(adj, tk, u, k + 1) == entry_calls(adj, tk, u, k as int));
                }
            }
            if !marked[v] {
                let ghost old_queue = queue@;
                proof {
                    lemma_count_true_set(marked@, v as int);
                    let j = choose|j: int| 0 <= j < old_queue.len() && reachable(adj, n, old_queue[j]) && old_queue[j] == u;
                    let p = choose|p: Seq<usize>| #[trigger] walk_between(adj, p, n, u);
                    lemma_walk_push(adj, p, v);
                    assert(walk_between(adj, p.push(v), n, v));
                }
                marked.set(v, true);
                queue.push(v);
                proof {
                    assert(queue@.take(head as int) =~= old_queue.take(head as int));
                    assert(queue@.take(head + 1) =~= old_queue.take(head + 1));
                    assert(queue@ =~= old_queue.push(v));
                    lemma_elems_push(old_queue, v);
                    assert forall|x: int| 0 <= x < num implies marked@[x] == queue@.contains(x as usize) by {
                        if x == v {
                            assert(queue@[old_queue.len() as int] == v);
                        } else if old_queue.contains(x as usize) {
                            let j = choose|j: int| 0 <= j < old_queue.len() && old_queue[j] == x as usize;
                            assert(queue@[j] == x);
                        }
                    }
                    assert(queue@.no_duplicates()) by {
                        assert(!old_queue.contains(v));
                    }
                    assert forall|j: int| 0 <= j < queue.len() implies reachable(adj, n, #[trigger] queue@[j]) by {
                        if j < old_queue.len() {
                            assert(old_queue[j] == queue@[j]);
                        }
                    }
                    assert forall|j: int, k2: int|
                        0 <= j < head && 0 <= k2 < adj[queue@[j] as int].len() implies rep.contains(
                            (queue@[j], #[trigger] adj[queue@[j] as int][k2]),
                        ) || queue@.take(j).contains(adj[queue@[j] as int][k2]) by {
                        assert(queue@[j] == old_queue[j]);
                        assert(queue@.take(j) =~= old_queue.take(j));
                    }
                }
            } else {
                proof {
                    assert(elems(queue@).insert(v) =~= elems(queue@));
                }
            }
            k += 1;
        }
        let ghost st3 = SearchState {
            adj,
            root: n,
            popped: elems(queue@.take(head + 1)),
            marked: elems(queue@),
            reported: rep,
            queue: queue@,
            head: (head + 1) as nat,
            edge_calls: search_calls(adj, queue@.take(head as int)) + entry_calls(
                adj,
                queue@.take(head as int),
                u,
                nbrs@.len() as int,
            ),
            finished: queue@.take(head as int),
        };
        proof {
            assert(queue@.take(head + 1)[head as int] == u);
        }
        vis.post_visit(u, Ghost(st3));
        processed.set(u, true);
        head += 1;
        proof {
            let done = queue@.take(head - 1);
            assert(queue@.take(head as int).drop_last() =~= done);
            assert(queue@.take(head as int).last() == u);
            assert(done.push(u) =~= queue@.take(head as int));
            assert(nbrs@.len() == adj[u as int].len());
            assert forall|x: int|
                0 <= x < num implies processed@[x] == queue@.take(head as int).contains(x as usize) by {
                if x == u {
                    assert(queue@.take(head as int)[head - 1] == u);
                } else if queue@.take(head as int).contains(x as usize) {
                    let tk = queue@.take(head as int);
                    let j = choose|j: int| 0 <= j < tk.len() && tk[j] == x as usize;
                    assert(j < head - 1);
                    assert(queue@.take(head - 1)[j] == x as usize);
                } else if queue@.take(head - 1).contains(x as usize) {
                    let tk = queue@.take(head - 1);
                    let j = choose|j: int| 0 <= j < tk.len() && tk[j] == x as usize;
                    assert(queue@.take(head as int)[j] == x as usize);
                }
            }
        }
    }
    proof {
        let r = reach_set(adj, n);
        let s = elems(queue@);
        assert(queue@.take(head as int) =~= queue@);
        assert forall|x: usize, k: int|
            s.contains(x) && x < adj.len() && 0 <= k < adj[x as int].len() implies s.contains(
                #[trigger] adj[x as int][k],
            ) by {
            let j = choose|j: int| 0 <= j < queue.len() && queue@[j] == x;
            assert(marked@[adj[queue@[j] as int][k] as int]);
            assert(adj[x as int][k] < num);
        }
        assert forall|x: usize| r.contains(x) implies s.contains(x) by {
            let p = choose|p: Seq<usize>| #[trigger] walk_between(adj, p, n, x);
            assert(queue@[0] == n);
            assert(queue@.contains(n));
            lemma_closed_walk(adj, s, p);
        }
        assert forall|x: usize| s.contains(x) implies r.contains(x) by {
            let j = choose|j: int| 0 <= j < queue.len() && queue@[j] == x;
        }
        assert(s =~= r);
        assert(queue@.take(queue.len() as int) =~= queue@);
    }
    Ghost((queue@, rep))
}

/// The start of a search is among the nodes it reaches.
proof fn lemma_reach_self_in(adj: Seq<Seq<usize>>, a: usize, reach: Set<usize>)
    requires
        a < adj.len(),
        reach == reach_set(adj, a),
    ensures
        reach.contains(a),
{
    assert(walk_between(adj, seq![a], a, a));
}

/// Reachability is transitive: walks join end to start.
proof fn lemma_reach_trans(adj: Seq<Seq<usize>>, a: usize, b: usize, c: usize)
    requires
        reachable(adj, a, b),
        reachable(adj, b, c),
    ensures
        reachable(adj, a, c),
{
    let p = choose|p: Seq<usize>| #[trigger] walk_between(adj, p, a, b);
    let q = choose|q: Seq<usize>| #[trigger] walk_between(adj, q, b, c);
    let r = p + q.skip(1);
    assert forall|i: int| 0 <= i < r.len() implies #[trigger] r[i] < adj.len() by {
        if i < p.len() {
            assert(p[i] < adj.len());
        } else {
            assert(r[i] == q[i - p.len() + 1]);
            assert(q[i - p.len() + 1] < adj.len());
        }
    }
    assert forall|i: int| 0 <= i < r.len() - 1 implies #[trigger] step(adj, r[i], r[i + 1]) by {
        if i < p.len() - 1 {
            assert(step(adj, p[i], p[i + 1]));
        } else if i == p.len() - 1 {
            assert(r[i + 1] == q[1]);
            assert(step(adj, q[0], q[1]));
        } else {
            let j = i - p.len() + 1;
            assert(r[i] == q[j]);
            assert(r[i + 1] == q[j + 1]);
            assert(step(adj, q[j], q[j + 1]));
        }
    }
    if q.len() == 1 {
        assert(r =~= p);
    } else {
        assert(r.last() == q.last());
    }
    assert(walk_between(adj, r, a, c));
}

/// No earlier node reaches `i`: a search launched in increasing index order
/// starts afresh at `i`.
pub open spec fn starts_component(adj: Seq<Seq<usize>>, i: usize) -> bool {
    forall|j: usize| j < i ==> !#[trigger] reachable(adj, j, i)
}

/// How many of the nodes below `k` start a component.
pub open spec fn roots_below(adj: Seq<Seq<usize>>, k: nat) -> nat
    decreases k,
{
    if k == 0 {
        0
    } else {
        roots_below(adj, (k - 1) as nat) + if starts_component(adj, (k - 1) as usize) {
            1nat
        } else {
            0nat
        }
    }
}

/// Number of components: on a symmetric adjacency, the connected components;
/// in general, the searches launched over the nodes in index order.
pub open spec fn component_count(adj: Seq<Seq<usize>>) -> nat {
    roots_below(adj, adj.len())
}

/// Marks every node taken from the queue, over a ghost record of what was
/// already marked when the search began.
struct Discovery {
    discovered: Vec<bool>,
    base: Ghost<Seq<bool>>,
}

impl Visitor for Discovery {
    closed spec fn ready(&self, st: SearchState) -> bool {
        &&& self.discovered@.len() == st.adj.len()
        &&& self.base@.len() == st.adj.len()
        &&& forall|x: usize|
            x < st.adj.len() ==> #[trigger] self.discovered@[x as int] == (self.base@[x as int]
                || st.popped.contains(x))
    }

    closed spec fn start_marks(&self) -> Seq<bool> {
        self.base@
    }

    fn pre_visit(&mut self, u: usize, st: Ghost<SearchState>) {
        self.discovered.set(u, true);
        proof {
            let st2 = st@.after_pop(u);
            assert(old(self).discovered@.len() == st@.adj.len());
            assert forall|x: usize| x < st2.adj.len() implies #[trigger] self.discovered@[x as int] == (
            self.base@[x as int] || st2.popped.contains(x)) by {
                if x != u {
                    assert(old(self).discovered@[x as int] == (self.base@[x as int] || st@.popped.contains(x)));
                }
            }
        }
    }

    fn post_visit(&mut self, u: usize, st: Ghost<SearchState>) {
    }

    fn on_edge(&mut self, u: usize, v: usize, st: Ghost<SearchState>) {
    }
}

/// A vector of `len` copies of `false`.
fn all_false(len: usize) -> (r: Vec<bool>)
    ensures
        r@ == Seq::new(len as nat, |x: int| false),
{
    let mut r: Vec<bool> = Vec::new();
    let mut i: usize = 0;
    while i < len
        invariant
            i <= len,
            r@ == Seq::new(i as nat, |x: int| false),
        decreases len - i,
    {
        r.push(false);
        i += 1;
    }
    r
}

/// Counts the searches needed to cover every node, launching one from each
/// node, in index order, that no earlier search reached.
pub fn connected_components<T: Eq, G: Graph<T>>(g: &G) -> (r: usize)
    requires
        g.wf(),
    ensures
        r == component_count(g.adjacency()),
{
    let ghost adj = g.adjacency();
    proof {
        g.lemma_shape();
    }
    let num = g.num_of_nodes();
    let mut disc = Discovery { discovered: all_false(num), base: Ghost(Seq::empty()) };
    let mut c: usize = 0;
    let mut i: usize = 0;
    while i < num
        invariant
            g.wf(),
            adj == g.adjacency(),
            num == adj.len(),
            num == g.labels().len(),
            i <= num,
            c <= i,
            c == roots_below(adj, i as nat),
            disc.discovered@.len() == num,
            forall|x: usize|
                x < num ==> #[trigger] disc.discovered@[x as int] == exists|j: usize|
                    j < i && #[trigger] reachable(adj, j, x),
        decreases num - i,
    {
        let ghost before = disc.discovered@;
        if !disc.discovered[i] {
            proof {
                assert(!disc.discovered@[i as int]);
                assert forall|j: usize| j < i implies !#[trigger] reachable(adj, j, i) by {
                    assert(!disc.discovered@[i as int]);
                }
            }
            disc.base = Ghost(disc.discovered@);
            bfs(g, i, &mut disc);
            assert(disc.base@ == before);
            proof {
                assert forall|x: usize| x < num implies #[trigger] disc.discovered@[x as int] == exists|j: usize|
                    j < i + 1 && #[trigger] reachable(adj, j, x) by {
                    if reachable(adj, i, x) {
                        assert(reach_set(adj, i).contains(x));
                    }
                    if exists|j: usize| j < i + 1 && #[trigger] reachable(adj, j, x) {
                        let j = choose|j: usize| j < i + 1 && #[trigger] reachable(adj, j, x);
                        if j == i {
                            assert(reach_set(adj, i).contains(x));
                        } else {
                            assert(before[x as int]);
                        }
                    } else {
                        assert(!before[x as int]);
                        assert(!reach_set(adj, i).contains(x));
                    }
                }
            }
            c += 1;
        } else {
            proof {
                let j0 = choose|j: usize| j < i && #[trigger] reachable(adj, j, i);
                assert(!starts_component(adj, i));
                assert forall|x: usize| x < num implies #[trigger] disc.discovered@[x as int] == exists|j: usize|
                    j < i + 1 && #[trigger] reachable(adj, j, x) by {
                    if reachable(adj, i, x) {
                        lemma_reach_trans(adj, j0, i, x);
                    }
                }
            }
        }
        i += 1;
    }
    c
}

/// Records, for each node, the node whose expansion first reported an edge to
/// it. The ghost depth counts the links back to the start; it never decreases
/// along the queue and spans at most one level past the node last taken.
struct Parents {
    parent: Vec<Option<usize>>,
    depth: Ghost<Seq<nat>>,
}

impl Parents {
    /// Depths along the queue.
    closed spec fn layered(&self, st: SearchState) -> bool {
        &&& forall|i: int, j: int|
            #![trigger st.queue[i], st.queue[j]]
            0 <= i < j < st.queue.len() ==> self.depth@[st.queue[i] as int]
                <= self.depth@[st.queue[j] as int]
        &&& st.head > 0 ==> forall|i: int|
            0 <= i < st.queue.len() ==> self.depth@[#[trigger] st.queue[i] as int]
                <= self.depth@[st.queue[st.head - 1] as int] + 1
        &&& st.head == 0 ==> st.queue.len() == 1
        &&& forall|i: int| 0 <= i < st.queue.len() ==> #[trigger] st.queue[i] < st.adj.len()
    }

    /// Links point to a node already taken from the queue, one level up.
    closed spec fn linked_up(&self, st: SearchState) -> bool {
        &&& forall|w: usize|
            w < st.adj.len() && w != st.root && (#[trigger] self.parent@[w as int]) is Some ==> {
                let p = self.parent@[w as int]->Some_0;
                &&& p < st.adj.len()
                &&& st.popped.contains(p)
                &&& step(st.adj, p, w)
                &&& self.depth@[w as int] == self.depth@[p as int] + 1
            }
        &&& forall|w: usize|
            w < st.adj.len() && w != st.root ==> (#[trigger] st.marked.contains(w) <==> self.parent@[w as int] is Some)
        &&& forall|x: usize, y: usize|
            #[trigger] st.reported.contains((x, y)) ==> {
                &&& st.popped.contains(x)
                &&& x < st.adj.len()
                &&& y < st.adj.len()
                &&& (y == st.root || self.parent@[y as int] is Some)
                &&& self.depth@[y as int] <= self.depth@[x as int] + 1
            }
    }
}

impl Visitor for Parents {
    closed spec fn ready(&self, st: SearchState) -> bool {
        &&& self.parent@.len() == st.adj.len()
        &&& self.depth@.len() == st.adj.len()
        &&& st.root < st.adj.len()
        &&& self.depth@[st.root as int] == 0
        &&& self.layered(st)
        &&& self.linked_up(st)
    }

    closed spec fn start_marks(&self) -> Seq<bool> {
        Seq::empty()
    }

    fn pre_visit(&mut self, u: usize, st: Ghost<SearchState>) {
        proof {
            let st2 = st@.after_pop(u);
            let q = st@.queue;
            let h = st@.head as int;
            assert(self.layered(st@));
            assert(self.linked_up(st@));
            assert forall|i: int| 0 <= i < q.len() implies self.depth@[#[trigger] q[i] as int]
                <= self.depth@[q[h] as int] + 1 by {
                if i < h {
                } else if i > h {
                    if h > 0 {
                        assert(self.depth@[q[h - 1] as int] <= self.depth@[q[h] as int]);
                    }
                }
            }
            assert(self.layered(st2));
            assert forall|x: usize, y: usize| #[trigger] st2.reported.contains((x, y)) implies st2.popped.contains(x) by {
                assert(st@.reported.contains((x, y)));
            }
            assert(self.linked_up(st2));
        }
    }

    fn post_visit(&mut self, u: usize, st: Ghost<SearchState>) {
    }

    fn on_edge(&mut self, u: usize, v: usize, st: Ghost<SearchState>) {
        let ghost q = st@.queue;
        let ghost h = st@.head as int;
        let ghost st2 = st@.after_edge(u, v);
        proof {
            assert(self.layered(st@));
            assert(self.linked_up(st@));
            assert(q.take(h)[h - 1] == u);
        }
        if self.parent[v].is_none() {
            let ghost d = if v != st@.root {
                self.depth@.update(v as int, self.depth@[u as int] + 1)
            } else {
                self.depth@
            };
            let ghost old_depth = self.depth@;
            self.parent.set(v, Some(u));
            self.depth = Ghost(d);
            proof {
                if v != st@.root {
                    assert(!st@.marked.contains(v));
                    assert(!q.contains(v));
                    assert(st2.queue == q.push(v));
                    assert forall|i: int| 0 <= i < q.len() implies self.depth@[#[trigger] q[i] as int]
                        == old_depth[q[i] as int] by {
                        assert(q[i] != v);
                    }
                    assert forall|i: int, j: int|
                        #![trigger st2.queue[i], st2.queue[j]]
                        0 <= i < j < st2.queue.len() implies self.depth@[st2.queue[i] as int]
                            <= self.depth@[st2.queue[j] as int] by {
                        if j == q.len() {
                            assert(old_depth[q[i] as int] <= old_depth[q[h - 1] as int] + 1);
                        } else {
                            assert(old_depth[q[i] as int] <= old_depth[q[j] as int]);
                        }
                    }
                    assert forall|i: int|
                        0 <= i < st2.queue.len() implies self.depth@[#[trigger] st2.queue[i] as int]
                            <= self.depth@[st2.queue[st2.head - 1] as int] + 1 by {
                        assert(st2.queue[h - 1] == q[h - 1]);
                        if i < q.len() {
                            assert(old_depth[q[i] as int] <= old_depth[q[h - 1] as int] + 1);
                        }
                    }
                    assert forall|i: int| 0 <= i < st2.queue.len() implies #[trigger] st2.queue[i] < st2.adj.len() by {
                        if i < q.len() {
                            assert(q[i] < st@.adj.len());
                        }
                    }
                    assert(self.layered(st2));
                    assert forall|w: usize|
                        w < st2.adj.len() && w != st2.root && (#[trigger] self.parent@[w as int]) is Some implies {
                            let p = self.parent@[w as int]->Some_0;
                            &&& p < st2.adj.len()
                            &&& st2.popped.contains(p)
                            &&& step(st2.adj, p, w)
                            &&& self.depth@[w as int] == self.depth@[p as int] + 1
                        } by {
                        if w != v {
                            let p = self.parent@[w as int]->Some_0;
                            assert(st@.popped.contains(p));
                            assert(p != v);
                        }
                    }
                    assert forall|x: usize, y: usize| #[trigger] st2.reported.contains((x, y)) implies {
                        &&& st2.popped.contains(x)
                        &&& x < st2.adj.len()
                        &&& y < st2.adj.len()
                        &&& (y == st2.root || self.parent@[y as int] is Some)
                        &&& self.depth@[y as int] <= self.depth@[x as int] + 1
                    } by {
                        if (x, y) != (u, v) {
                            assert(st@.reported.contains((x, y)));
                            assert(y != v);
                            assert(x != v);
                        }
                    }
                    assert(self.linked_up(st2));
                } else {
                    assert(st@.marked.contains(st@.root)) by {
                        assert(q[0] == st@.root);
                    }
                    assert(st2.queue == q);
                    assert(self.layered(st2));
                    assert forall|x: usize, y: usize| #[trigger] st2.reported.contains((x, y)) implies {
                        &&& st2.popped.contains(x)
                        &&& x < st2.adj.len()
                        &&& y < st2.adj.len()
                        &&& (y == st2.root || self.parent@[y as int] is Some)
                        &&& self.depth@[y as int] <= self.depth@[x as int] + 1
                    } by {
                        if (x, y) != (u, v) {
                            assert(st@.reported.contains((x, y)));
                        }
                    }
                    assert(self.linked_up(st2));
                }
            }
        } else {
            proof {
                assert(st@.marked.contains(v)) by {
                    if v == st@.root {
                        assert(q[0] == st@.root);
                    }
                }
                assert(st2.queue == q);
                assert(self.layered(st2));
                if v != st@.root {
                    let p = self.parent@[v as int]->Some_0;
                    assert(st@.popped.contains(p));
                    let tk = q.take(h);
                    let i = choose|i: int| 0 <= i < tk.len() && tk[i] == p;
                    if i < h - 1 {
                        assert(self.depth@[q[i] as int] <= self.depth@[q[h - 1] as int]);
                    }
                }
                assert forall|x: usize, y: usize| #[trigger] st2.reported.contains((x, y)) implies {
                    &&& st2.popped.contains(x)
                    &&& x < st2.adj.len()
                    &&& y < st2.adj.len()
                    &&& (y == st2.root || self.parent@[y as int] is Some)
                    &&& self.depth@[y as int] <= self.depth@[x as int] + 1
                } by {
                    if (x, y) != (u, v) {
                        assert(st@.reported.contains((x, y)));
                    }
                }
                assert(self.linked_up(st2));
            }
        }
    }
}

/// Along a walk from a node of depth zero inside a set closed under adjacency,
/// where an entry raises depth by at most one, the depth reached is at most the
/// number of steps.
proof fn lemma_depth_along_walk(adj: Seq<Seq<usize>>, s: Set<usize>, depth: Seq<nat>, p: Seq<usize>)
    requires
        is_walk(adj, p),
        s.contains(p[0]),
        depth[p[0] as int] == 0,
        forall|x: usize, k: int|
            s.contains(x) && x < adj.len() && 0 <= k < adj[x as int].len() ==> s.contains(
                #[trigger] adj[x as int][k],
            ),
        forall|x: usize, k: int|
            s.contains(x) && x < adj.len() && 0 <= k < adj[x as int].len() ==> depth[#[trigger] adj[x as int][k] as int]
                <= depth[x as int] + 1,
    ensures
        depth[p.last() as int] <= p.len() - 1,
    decreases p.len(),
{
    if p.len() > 1 {
        let q = p.drop_last();
        assert(is_walk(adj, q)) by {
            assert forall|i: int| 0 <= i < q.len() - 1 implies #[trigger] step(adj, q[i], q[i + 1]) by {
                assert(step(adj, p[i], p[i + 1]));
            }
            assert forall|i: int| 0 <= i < q.len() implies #[trigger] q[i] < adj.len() by {
                assert(p[i] < adj.len());
            }
        }
        lemma_depth_along_walk(adj, s, depth, q);
        lemma_closed_walk(adj, s, q);
        let i = p.len() - 2;
        assert(step(adj, p[i], p[i + 1]));
        assert(p[i] < adj.len());
        let k = choose|k: int| 0 <= k < adj[p[i] as int].len() && adj[p[i] as int][k] == p[i + 1];
        assert(depth[adj[p[i] as int][k] as int] <= depth[p[i] as int] + 1);
    }
}

/// A vector of `len` copies of `None`.
fn all_none(len: usize) -> (r: Vec<Option<usize>>)
    ensures
        r@ == Seq::new(len as nat, |x: int| None::<usize>),
{
    let mut r: Vec<Option<usize>> = Vec::new();
    let mut i: usize = 0;
    while i < len
        invariant
            i <= len,
            r@ == Seq::new(i as nat, |x: int| None::<usize>),
        decreases len - i,
    {
        r.push(None);
        i += 1;
    }
    r
}

/// The values behind a sequence of references.
pub open spec fn derefs<'a, T>(s: Seq<&'a T>) -> Seq<T> {
    s.map_values(|x: &T| *x)
}

/// The labels of the nodes along `p`, in order.
pub open spec fn labels_along<T>(labels: Seq<T>, p: Seq<usize>) -> Seq<T> {
    p.map_values(|i: usize| labels[i as int])
}

/// A path of labels from `u` to `v`, found by breadth-first search from `u`
/// and read back along the first-discovery links. Empty exactly when `v`
/// cannot be reached from `u`; otherwise no walk from `u` to `v` is shorter.
pub fn find_path<'a, T: Eq, G: Graph<T>>(g: &'a G, u: &T, v: &T) -> (r: Vec<&'a T>)
    requires
        g.wf(),
        obeys_concrete_eq::<T>(),
        g.labels().contains(*u),
        g.labels().contains(*v),
    ensures
        r@.len() > 0 <==> reachable(
            g.adjacency(),
            g.labels().index_of(*u) as usize,
            g.labels().index_of(*v) as usize,
        ),
        r@.len() > 0 ==> exists|p: Seq<usize>|
            {
                &&& #[trigger] walk_between(
                    g.adjacency(),
                    p,
                    g.labels().index_of(*u) as usize,
                    g.labels().index_of(*v) as usize,
                )
                &&& derefs(r@) == labels_along(g.labels(), p)
            },
        r@.len() > 0 ==> forall|q: Seq<usize>|
            #[trigger] walk_between(
                g.adjacency(),
                q,
                g.labels().index_of(*u) as usize,
                g.labels().index_of(*v) as usize,
            ) ==> r@.len() <= q.len(),
{
    let ghost adj = g.adjacency();
    let ghost labels = g.labels();
    proof {
        g.lemma_shape();
    }
    let a = g.index(u);
    let b = g.index(v);
    proof {
        assert(labels.contains(*u));
        assert(labels.contains(*v));
        assert(labels.index_of(*u) == a as int);
        assert(labels.index_of(*v) == b as int);
    }
    let num = g.num_of_nodes();
    let mut parents = Parents {
        parent: all_none(num),
        depth: Ghost(Seq::new(num as nat, |x: int| 0nat)),
    };
    proof {
        assert forall|w: usize|
            w < adj.len() && w != a && #[trigger] set![a].contains(w) implies parents.parent@[w as int] is Some by {
        }
    }
    let trace = bfs(g, a, &mut parents);
    let ghost reach = reach_set(adj, a);
    let ghost rep = trace@.1;
    let ghost order = trace@.0;
    if b != a && parents.parent[b].is_none() {
        proof {
            if reachable(adj, a, b) {
                let st = SearchState { adj, root: a, popped: reach, marked: reach, reported: rep, queue: order, head: order.len(), edge_calls: search_calls(adj, order), finished: order };
                assert(parents.ready(st));
                assert(st.marked.contains(b));
                assert(parents.parent@[b as int] is Some);
            }
        }
        return Vec::new();
    }
    let mut rev: Vec<usize> = Vec::new();
    rev.push(b);
    let mut cur = b;
    while cur != a
        invariant
            g.wf(),
            adj == g.adjacency(),
            labels == g.labels(),
            well_shaped(adj, labels),
            num == adj.len(),
            a < num,
            parents.ready(SearchState { adj, root: a, popped: reach, marked: reach, reported: rep, queue: order, head: order.len(), edge_calls: search_calls(adj, order), finished: order }),
            labels.index_of(*u) == a as int,
            labels.index_of(*v) == b as int,
            rev@.len() > 0,
            rev@[0] == b,
            rev@.last() == cur,
            cur < num,
            cur == a || parents.parent@[cur as int] is Some,
            rev@.len() + parents.depth@[cur as int] == parents.depth@[b as int] + 1,
            forall|i: int| 0 <= i < rev@.len() ==> #[trigger] rev@[i] < num,
            forall|i: int| 0 <= i < rev@.len() - 1 ==> #[trigger] step(adj, rev@[i + 1], rev@[i]),
        decreases parents.depth@[cur as int],
    {
        let p = parents.parent[cur].unwrap();
        proof {
            let st = SearchState { adj, root: a, popped: reach, marked: reach, reported: rep, queue: order, head: order.len(), edge_calls: search_calls(adj, order), finished: order };
            assert(st.popped.contains(p));
            assert(st.marked.contains(p));
        }
        rev.push(p);
        cur = p;
    }
    proof {
        let st = SearchState { adj, root: a, popped: reach, marked: reach, reported: rep, queue: order, head: order.len(), edge_calls: search_calls(adj, order), finished: order };
        assert(parents.ready(st));
        assert(parents.layered(st));
        assert(parents.linked_up(st));
        assert forall|x: usize, k: int|
            reach.contains(x) && x < adj.len() && 0 <= k < adj[x as int].len() implies reach.contains(
                #[trigger] adj[x as int][k],
            ) by {
            let p = choose|p: Seq<usize>| #[trigger] walk_between(adj, p, a, x);
            let y = adj[x as int][k];
            assert(y < adj.len());
            assert(step(adj, x, y));
            lemma_walk_push(adj, p, y);
            assert(walk_between(adj, p.push(y), a, y));
        }
        assert forall|x: usize, k: int|
            reach.contains(x) && x < adj.len() && 0 <= k < adj[x as int].len() implies parents.depth@[#[trigger] adj[x as int][k] as int]
                <= parents.depth@[x as int] + 1 by {
            assert(elems(order).contains(x));
            let j = choose|j: int| 0 <= j < order.len() && order[j] == x;
            let y = adj[x as int][k];
            assert(rep.contains((order[j], adj[order[j] as int][k]))
                || order.take(j).contains(adj[order[j] as int][k]));
            if rep.contains((x, y)) {
                assert(st.reported.contains((x, y)));
            } else {
                let tk = order.take(j);
                let j2 = choose|j2: int| 0 <= j2 < tk.len() && tk[j2] == y;
                assert(order[j2] == y);
                assert(j2 < j);
                assert(st.queue[j2] == y && st.queue[j] == x);
                assert(parents.depth@[st.queue[j2] as int] <= parents.depth@[st.queue[j] as int]);
            }
        }
        assert forall|q: Seq<usize>| #[trigger] walk_between(adj, q, a, b) implies rev@.len() <= q.len() by {
            lemma_reach_self_in(adj, a, reach);
            lemma_depth_along_walk(adj, reach, parents.depth@, q);
        }
    }
    let ghost path = rev@.reverse();
    proof {
        assert(walk_between(adj, path, a, b)) by {
            assert forall|i: int| 0 <= i < path.len() implies #[trigger] path[i] < adj.len() by {
                assert(rev@[rev@.len() - 1 - i] < num);
            }
            assert forall|i: int| 0 <= i < path.len() - 1 implies #[trigger] step(adj, path[i], path[i + 1]) by {
                let j = rev@.len() - 2 - i;
                assert(step(adj, rev@[j + 1], rev@[j]));
            }
        }
    }
    let mut r: Vec<&'a T> = Vec::new();
    let mut k: usize = rev.len();
    while k > 0
        invariant
            g.wf(),
            labels == g.labels(),
            well_shaped(adj, labels),
            num == labels.len(),
            k <= rev@.len(),
            labels.index_of(*u) == a as int,
            labels.index_of(*v) == b as int,
            walk_between(adj, path, a, b),
            forall|q: Seq<usize>| #[trigger] walk_between(adj, q, a, b) ==> rev@.len() <= q.len(),
            path == rev@.reverse(),
            forall|i: int| 0 <= i < rev@.len() ==> #[trigger] rev@[i] < num,
            r@.len() == rev@.len() - k,
            forall|j: int| 0 <= j < r@.len() ==> *#[trigger] r@[j] == labels[path[j] as int],
        decreases k,
    {
        k -= 1;
        let x = g.key(rev[k]);
        r.push(x);
    }
    proof {
        assert(derefs(r@) =~= labels_along(labels, path));
        assert(labels.index_of(*u) as usize == a);
        assert(labels.index_of(*v) as usize == b);
        assert(walk_between(adj, path, labels.index_of(*u) as usize, labels.index_of(*v) as usize));
    }
    r
}

const UNCOLORED: u8 = 0;
const WHITE: u8 = 1;
const BLACK: u8 = 2;

/// `c` gives the two ends of every adjacency entry different colours.
pub open spec fn proper(adj: Seq<Seq<usize>>, c: Seq<bool>) -> bool {
    &&& c.len() == adj.len()
    &&& forall|x: usize, k: int|
        x < adj.len() && 0 <= k < adj[x as int].len() ==> c[x as int] != c[#[trigger] adj[x as int][k] as int]
}

/// Some colouring with two colours is proper.
pub open spec fn two_colorable(adj: Seq<Seq<usize>>) -> bool {
    exists|c: Seq<bool>| #[trigger] proper(adj, c)
}

/// A set closed under adjacency, given as marks by index.
pub open spec fn closed_marks(adj: Seq<Seq<usize>>, d: Seq<bool>) -> bool {
    forall|x: usize, k: int|
        x < adj.len() && d[x as int] && 0 <= k < adj[x as int].len() ==> d[#[trigger] adj[x as int][k] as int]
}

/// Two-colours the nodes as they are discovered; records a conflict whenever
/// an edge joins two nodes of one colour, and carries on.
struct Coloring {
    color: Vec<u8>,
    discovered: Vec<bool>,
    base: Ghost<Seq<bool>>,
    is_bipartite: bool,
}

impl Coloring {
    /// While no conflict was seen, the colours within the current search agree
    /// with every proper colouring, up to swapping the two colours.
    closed spec fn parity(&self, st: SearchState) -> bool {
        forall|c: Seq<bool>, x: usize|
            #![trigger proper(st.adj, c), st.marked.contains(x)]
            proper(st.adj, c) && x < st.adj.len() && st.marked.contains(x) ==> ((self.color@[x as int]
                == self.color@[st.root as int]) == (c[x as int] == c[st.root as int]))
    }
}

impl Coloring {
    /// While no conflict was seen: every reported entry joins two coloured
    /// nodes of different colours, and so does every entry of a node that an
    /// earlier search covered.
    closed spec fn checked(&self, st: SearchState) -> bool {
        &&& forall|x: usize, w: usize|
            #[trigger] st.reported.contains((x, w)) ==> x < st.adj.len() && w < st.adj.len()
                && self.color@[x as int] != UNCOLORED && self.color@[w as int] != UNCOLORED
                && self.color@[x as int] != self.color@[w as int]
        &&& forall|x: usize, k: int|
            x < st.adj.len() && self.base@[x as int] && 0 <= k < st.adj[x as int].len()
                ==> self.color@[x as int] != self.color@[#[trigger] st.adj[x as int][k] as int]
    }
}

impl Visitor for Coloring {
    closed spec fn ready(&self, st: SearchState) -> bool {
        &&& self.color@.len() == st.adj.len()
        &&& self.discovered@.len() == st.adj.len()
        &&& self.base@.len() == st.adj.len()
        &&& st.root < st.adj.len()
        &&& st.marked.contains(st.root)
        &&& forall|x: usize, k: int|
            x < st.adj.len() && 0 <= k < st.adj[x as int].len() ==> #[trigger] st.adj[x as int][k]
                < st.adj.len()
        &&& forall|x: usize|
            x < st.adj.len() ==> #[trigger] self.discovered@[x as int] == (self.base@[x as int]
                || st.popped.contains(x))
        &&& forall|x: usize|
            x < st.adj.len() ==> #[trigger] self.color@[x as int] <= BLACK && (self.color@[x as int]
                != UNCOLORED) == (self.base@[x as int] || st.marked.contains(x))
        &&& closed_marks(st.adj, self.base@)
        &&& symmetric(st.adj) ==> forall|x: usize|
            x < st.adj.len() && #[trigger] st.marked.contains(x) ==> !self.base@[x as int]
        &&& symmetric(st.adj) && self.is_bipartite ==> self.parity(st)
        &&& symmetric(st.adj) && self.is_bipartite ==> self.checked(st)
        &&& symmetric(st.adj) && !self.is_bipartite ==> !two_colorable(st.adj)
    }

    closed spec fn start_marks(&self) -> Seq<bool> {
        self.base@
    }

    fn pre_visit(&mut self, u: usize, st: Ghost<SearchState>) {
        self.discovered.set(u, true);
        proof {
            let st2 = st@.after_pop(u);
            assert forall|x: usize| x < st2.adj.len() implies #[trigger] self.discovered@[x as int] == (
            self.base@[x as int] || st2.popped.contains(x)) by {
                if x != u {
                    assert(old(self).discovered@[x as int] == (self.base@[x as int] || st@.popped.contains(x)));
                }
            }
            if symmetric(st@.adj) && self.is_bipartite {
                assert(old(self).parity(st@));
                assert(self.parity(st2));
                assert(old(self).checked(st@));
                assert(self.checked(st2));
            }
        }
    }

    fn post_visit(&mut self, u: usize, st: Ghost<SearchState>) {
    }

    fn on_edge(&mut self, u: usize, v: usize, st: Ghost<SearchState>) {
        let ghost adj = st@.adj;
        let ghost root = st@.root;
        let ghost st2 = st@.after_edge(u, v);
        let ghost was = self.is_bipartite;
        proof {
            assert(self.color@[u as int] != UNCOLORED);
            if symmetric(adj) {
                assert(!self.base@[u as int]);
                assert(!self.base@[v as int]) by {
                    if self.base@[v as int] {
                        let k = choose|k: int| 0 <= k < adj[u as int].len() && adj[u as int][k] == v;
                        assert(step(adj, adj[u as int][k], u));
                        let k2 = choose|k2: int| 0 <= k2 < adj[v as int].len() && adj[v as int][k2] == u;
                        assert(self.base@[adj[v as int][k2] as int]);
                    }
                }
            }
        }
        let cu = self.color[u];
        let cv = self.color[v];
        if cu == cv {
            self.is_bipartite = false;
            proof {
                if symmetric(adj) {
                    if was {
                        assert(st@.marked.contains(v));
                        assert forall|c: Seq<bool>| !proper(adj, c) by {
                            if proper(adj, c) {
                                assert(old(self).parity(st@));
                                assert(st@.marked.contains(u));
                                let k = choose|k: int| 0 <= k < adj[u as int].len() && adj[u as int][k] == v;
                                assert(c[u as int] != c[adj[u as int][k] as int]);
                                assert((cu == self.color@[root as int]) == (c[u as int] == c[root as int]));
                                assert((cv == self.color@[root as int]) == (c[v as int] == c[root as int]));
                            }
                        }
                    }
                }
            }
        }
        if cu == WHITE {
            self.color.set(v, BLACK);
        }
        if self.color[u] == BLACK {
            self.color.set(v, WHITE);
        }
        proof {
            assert forall|x: usize| x < adj.len() implies #[trigger] self.color@[x as int] <= BLACK && (
            self.color@[x as int] != UNCOLORED) == (self.base@[x as int] || st2.marked.contains(x)) by {
                if x != v {
                    assert(old(self).color@[x as int] <= BLACK);
                }
            }
            if symmetric(adj) {
                assert forall|x: usize| x < adj.len() && #[trigger] st2.marked.contains(x) implies !self.base@[x as int] by {
                    if x != v {
                        assert(st@.marked.contains(x));
                    }
                }
            }
            if symmetric(adj) && self.is_bipartite {
                assert(cu != cv);
                assert(old(self).parity(st@));
                assert(cv != UNCOLORED ==> self.color@ == old(self).color@) by {
                    if cv != UNCOLORED {
                        assert(self.color@ =~= old(self).color@);
                    }
                }
                assert(self.color@[root as int] == old(self).color@[root as int]) by {
                    if root == v {
                        assert(st@.marked.contains(root));
                    }
                }
                assert forall|c: Seq<bool>, x: usize|
                    #![trigger proper(st2.adj, c), st2.marked.contains(x)]
                    proper(st2.adj, c) && x < st2.adj.len() && st2.marked.contains(x) implies ((
                    self.color@[x as int] == self.color@[st2.root as int]) == (c[x as int]
                    == c[st2.root as int])) by {
                    assert(st@.marked.contains(u));
                    if x == v {
                        let k = choose|k: int| 0 <= k < adj[u as int].len() && adj[u as int][k] == v;
                        assert(c[u as int] != c[adj[u as int][k] as int]);
                        assert((cu == old(self).color@[root as int]) == (c[u as int] == c[root as int]));
                        if cv != UNCOLORED {
                            assert(st@.marked.contains(v));
                        }
                    } else {
                        assert(st@.marked.contains(x));
                        assert(self.color@[x as int] == old(self).color@[x as int]);
                    }
                }
                assert(self.parity(st2));
                assert(old(self).checked(st@));
                if cv == UNCOLORED {
                    assert forall|x: usize, w: usize|
                        #[trigger] st2.reported.contains((x, w)) implies x < adj.len() && w < adj.len()
                            && self.color@[x as int] != UNCOLORED && self.color@[w as int] != UNCOLORED
                            && self.color@[x as int] != self.color@[w as int] by {
                        if (x, w) != (u, v) {
                            assert(st@.reported.contains((x, w)));
                        }
                    }
                    assert forall|x: usize, k: int|
                        x < adj.len() && self.base@[x as int] && 0 <= k < adj[x as int].len()
                            implies self.color@[x as int] != self.color@[#[trigger] adj[x as int][k] as int] by {
                        assert(self.base@[adj[x as int][k] as int]);
                        assert(old(self).color@[x as int] != UNCOLORED);
                        assert(old(self).color@[adj[x as int][k] as int] != UNCOLORED);
                    }
                } else {
                    assert forall|x: usize, w: usize|
                        #[trigger] st2.reported.contains((x, w)) implies x < adj.len() && w < adj.len()
                            && self.color@[x as int] != UNCOLORED && self.color@[w as int] != UNCOLORED
                            && self.color@[x as int] != self.color@[w as int] by {
                        if (x, w) != (u, v) {
                            assert(st@.reported.contains((x, w)));
                        }
                    }
                }
                assert(self.checked(st2));
            }
        }
    }
}

/// Two-colouring by breadth-first search: each node not yet discovered starts
/// a search with colour white; each reported edge checks that its ends differ
/// and gives the far end the colour opposite to the near one. On the store of
/// an undirected graph, the answer is whether a proper two-colouring exists.
/// On a directed store the search follows entries one way only; this contract
/// says nothing of the answer there, and callers should use an undirected store.
pub fn bipartite<T: Eq, G: Graph<T>>(g: &G) -> (r: bool)
    requires
        g.wf(),
    ensures
        symmetric(g.adjacency()) ==> (r == two_colorable(g.adjacency())),
{
    let ghost adj = g.adjacency();
    proof {
        g.lemma_shape();
    }
    let num = g.num_of_nodes();
    let mut col = Coloring {
        color: Vec::new(),
        discovered: all_false(num),
        base: Ghost(Seq::empty()),
        is_bipartite: true,
    };
    let mut i: usize = 0;
    while i < num
        invariant
            i <= num,
            col.color@ == Seq::new(i as nat, |x: int| UNCOLORED),
            col.is_bipartite,
            col.discovered@ == Seq::new(num as nat, |x: int| false),
        decreases num - i,
    {
        col.color.push(UNCOLORED);
        i += 1;
    }
    i = 0;
    while i < num
        invariant
            g.wf(),
            adj == g.adjacency(),
            well_shaped(adj, g.labels()),
            num == adj.len(),
            num == g.labels().len(),
            i <= num,
            col.color@.len() == num,
            col.discovered@.len() == num,
            forall|x: usize|
                x < num ==> #[trigger] col.color@[x as int] <= BLACK && (col.color@[x as int]
                    != UNCOLORED) == col.discovered@[x as int],
            closed_marks(adj, col.discovered@),
            symmetric(adj) && !col.is_bipartite ==> !two_colorable(adj),
            forall|x: usize| x < i ==> #[trigger] col.discovered@[x as int],
            symmetric(adj) && col.is_bipartite ==> forall|x: usize, k: int|
                x < num && col.discovered@[x as int] && 0 <= k < adj[x as int].len()
                    ==> col.color@[x as int] != col.color@[#[trigger] adj[x as int][k] as int],
        decreases num - i,
    {
        if !col.discovered[i] {
            col.color.set(i, WHITE);
            col.base = Ghost(col.discovered@);
            let ghost st0 = SearchState {
                adj,
                root: i,
                popped: Set::empty(),
                marked: set![i],
                reported: Set::empty(),
                queue: seq![i],
                head: 0,
                edge_calls: Seq::empty(),
                finished: Seq::empty(),
            };
            proof {
                assert forall|x: usize| x < num implies #[trigger] col.discovered@[x as int] == (
                col.base@[x as int] || st0.popped.contains(x)) by {
                }
                assert forall|x: usize| x < num implies #[trigger] col.color@[x as int] <= BLACK && (
                col.color@[x as int] != UNCOLORED) == (col.base@[x as int] || st0.marked.contains(x)) by {
                }
                if symmetric(adj) && col.is_bipartite {
                    assert(col.parity(st0));
                    assert forall|x: usize, k: int|
                        x < adj.len() && col.base@[x as int] && 0 <= k < adj[x as int].len()
                            implies col.color@[x as int] != col.color@[#[trigger] adj[x as int][k] as int] by {
                        assert(col.base@[adj[x as int][k] as int]);
                    }
                    assert(col.checked(st0));
                }
            }
            let trace = bfs(g, i, &mut col);
            let ghost reach = reach_set(adj, i);
            proof {
                let st = SearchState {
                    adj,
                    root: i,
                    popped: reach,
                    marked: reach,
                    reported: trace@.1,
                    queue: trace@.0,
                    head: trace@.0.len(),
                    edge_calls: search_calls(adj, trace@.0),
                    finished: trace@.0,
                };
                assert(col.ready(st));
                assert forall|x: usize| x < num implies #[trigger] col.color@[x as int] <= BLACK && (
                col.color@[x as int] != UNCOLORED) == col.discovered@[x as int] by {
                    assert(col.discovered@[x as int] == (col.base@[x as int] || st.popped.contains(x)));
                }
                assert forall|x: usize, k: int|
                    x < adj.len() && col.discovered@[x as int] && 0 <= k < adj[x as int].len()
                        implies col.discovered@[#[trigger] adj[x as int][k] as int] by {
                    let y = adj[x as int][k];
                    assert(y < num);
                    assert(col.discovered@[x as int] == (col.base@[x as int] || st.popped.contains(x)));
                    assert(col.discovered@[y as int] == (col.base@[y as int] || st.popped.contains(y)));
                    if st.popped.contains(x) {
                        let p = choose|p: Seq<usize>| #[trigger] walk_between(adj, p, i, x);
                        assert(step(adj, x, y));
                        lemma_walk_push(adj, p, y);
                        assert(walk_between(adj, p.push(y), i, y));
                    }
                }
                if symmetric(adj) && col.is_bipartite {
                    let order = trace@.0;
                    let rep = trace@.1;
                    assert(col.checked(st));
                    assert forall|x: usize, k: int|
                        x < num && col.discovered@[x as int] && 0 <= k < adj[x as int].len()
                            implies col.color@[x as int] != col.color@[#[trigger] adj[x as int][k] as int] by {
                        assert(col.discovered@[x as int] == (col.base@[x as int] || st.popped.contains(x)));
                        if !col.base@[x as int] {
                            assert(elems(order).contains(x));
                            let j = choose|j: int| 0 <= j < order.len() && order[j] == x;
                            let w = adj[x as int][k];
                            assert(rep.contains((order[j], adj[order[j] as int][k]))
                                || order.take(j).contains(adj[order[j] as int][k]));
                            if !rep.contains((x, w)) {
                                let tk = order.take(j);
                                let j2 = choose|j2: int| 0 <= j2 < tk.len() && tk[j2] == w;
                                assert(order[j2] == w);
                                assert(step(adj, w, x));
                                let k2 = choose|k2: int| 0 <= k2 < adj[w as int].len() && adj[w as int][k2] == x;
                                assert(rep.contains((order[j2], adj[order[j2] as int][k2]))
                                    || order.take(j2).contains(adj[order[j2] as int][k2]));
                                if order.take(j2).contains(x) {
                                    let tk2 = order.take(j2);
                                    let j3 = choose|j3: int| 0 <= j3 < tk2.len() && tk2[j3] == x;
                                    assert(order[j3] == x);
                                }
                                assert(rep.contains((w, x)));
                                assert(st.reported.contains((w, x)));
                            } else {
                                assert(st.reported.contains((x, w)));
                            }
                        } else {
                            assert(st.adj[x as int][k] == adj[x as int][k]);
                        }
                    }
                }
            }
        }
        i += 1;
    }
    proof {
        if symmetric(adj) && col.is_bipartite {
            let c = Seq::new(num as nat, |x: int| col.color@[x] == WHITE);
            assert forall|x: usize, k: int|
                x < adj.len() && 0 <= k < adj[x as int].len() implies c[x as int] != c[#[trigger] adj[x as int][k] as int] by {
                let y = adj[x as int][k];
                assert(y < num);
                assert(col.discovered@[x as int]);
                assert(col.discovered@[y as int]);
                assert(col.color@[x as int] <= BLACK && col.color@[x as int] != UNCOLORED);
                assert(col.color@[y as int] <= BLACK && col.color@[y as int] != UNCOLORED);
            }
            assert(proper(adj, c));
        }
    }
    col.is_bipartite
}

proof fn lemma_elems_push(s: Seq<usize>, x: usize)
    ensures
        elems(s.push(x)) == elems(s).insert(x),
{
    assert forall|y: usize| elems(s.push(x)).contains(y) <==> elems(s).insert(x).contains(y) by {
        if s.contains(y) {
            let j = choose|j: int| 0 <= j < s.len() && s[j] == y;
            assert(s.push(x)[j] == y);
        }
        if s.push(x).contains(y) && y != x {
            let j = choose|j: int| 0 <= j < s.push(x).len() && s.push(x)[j] == y;
            assert(s[j] == y);
        }
        if y == x {
            assert(s.push(x)[s.len() as int] == x);
        }
    }
    assert(elems(s.push(x)) =~= elems(s).insert(x));
}

proof fn lemma_count_all_false(len: nat)
    ensures
        count_true(Seq::new(len, |x: int| false)) == 0,
    decreases len,
{
    if len > 0 {
        assert(Seq::new(len, |x: int| false).drop_last() =~= Seq::new((len - 1) as nat, |x: int| false));
        lemma_count_all_false((len - 1) as nat);
    }
}

} // verus!
