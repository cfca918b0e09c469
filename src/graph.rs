use std::rc::Rc;
use vstd::laws_eq::obeys_concrete_eq;
use vstd::prelude::*;

verus! {

/// Number of adjacency entries over all nodes.
pub open spec fn total_len(adj: Seq<Seq<usize>>) -> nat
    decreases adj.len(),
{
    if adj.len() == 0 {
        0
    } else {
        total_len(adj.drop_last()) + adj.last().len()
    }
}

/// Edge count: each directed entry is an edge; an undirected edge is stored twice.
pub open spec fn edge_count(adj: Seq<Seq<usize>>, directed: bool) -> nat {
    if directed {
        total_len(adj)
    } else {
        total_len(adj) / 2
    }
}

/// The label table after registering `l`: unchanged if present, else `l` appended.
pub open spec fn with_label<T>(labels: Seq<T>, l: T) -> Seq<T> {
    if labels.contains(l) {
        labels
    } else {
        labels.push(l)
    }
}

/// The adjacency lists extended with empty lists up to `n` nodes.
pub open spec fn padded(adj: Seq<Seq<usize>>, n: nat) -> Seq<Seq<usize>> {
    Seq::new(n, |i: int| if i < adj.len() { adj[i] } else { Seq::empty() })
}

/// Appends `b` to the adjacency list of `a`.
pub open spec fn add_arc(adj: Seq<Seq<usize>>, a: int, b: int) -> Seq<Seq<usize>> {
    adj.update(a, adj[a].push(b as usize))
}

/// The edge `a`-`b` recorded: forward only when directed, mirrored otherwise.
pub open spec fn linked(adj: Seq<Seq<usize>>, a: int, b: int, directed: bool) -> Seq<Seq<usize>> {
    if directed {
        add_arc(adj, a, b)
    } else {
        add_arc(add_arc(adj, a, b), b, a)
    }
}

/// `b` is among the neighbours of `a`.
pub open spec fn step(adj: Seq<Seq<usize>>, a: usize, b: usize) -> bool {
    adj[a as int].contains(b)
}

/// Every adjacency entry has its mirror: the store of an undirected graph.
pub open spec fn symmetric(adj: Seq<Seq<usize>>) -> bool {
    forall|x: usize, k: int|
        x < adj.len() && 0 <= k < adj[x as int].len() ==> step(adj, #[trigger] adj[x as int][k], x)
}

/// Shape shared by every well-formed store: one list per label, every entry a
/// valid index, labels distinct.
pub open spec fn well_shaped<T>(adj: Seq<Seq<usize>>, labels: Seq<T>) -> bool {
    &&& adj.len() == labels.len()
    &&& labels.no_duplicates()
    &&& forall|i: int, k: int|
        0 <= i < adj.len() && 0 <= k < adj[i].len() ==> #[trigger] adj[i][k] < adj.len()
}

/// A graph whose nodes carry labels of type `T`, each with a dense index.
///
/// Labels are compared by value (`obeys_concrete_eq`): two labels name the same
/// node exactly when they are equal.
pub trait Graph<T: Eq>: Sized {
    /// The store's internal invariant.
    spec fn wf(&self) -> bool;

    /// Label of each node, by index.
    spec fn labels(&self) -> Seq<T>;

    /// Neighbour indices of each node, by index, in insertion order.
    spec fn adjacency(&self) -> Seq<Seq<usize>>;

    /// Fixed at creation: whether an edge is recorded one way or mirrored.
    spec fn is_directed(&self) -> bool;

    /// What every well-formed store looks like from outside.
    proof fn lemma_shape(&self)
        requires
            self.wf(),
        ensures
            well_shaped(self.adjacency(), self.labels()),
            !self.is_directed() ==> symmetric(self.adjacency()),
    ;

    /// Number of distinct labels registered.
    fn num_of_nodes(&self) -> (r: usize)
        requires
            self.wf(),
        ensures
            r == self.labels().len(),
    ;

    /// Registers both labels (a known label keeps its index, a new one gets the
    /// next index), then records the edge between them; edges are never merged.
    fn insert(&mut self, u: T, v: T)
        requires
            old(self).wf(),
            obeys_concrete_eq::<T>(),
            old(self).labels().len() + 2 <= usize::MAX,
            total_len(old(self).adjacency()) + 2 <= usize::MAX,
        ensures
            final(self).wf(),
            final(self).is_directed() == old(self).is_directed(),
            final(self).labels() == with_label(with_label(old(self).labels(), u), v),
            final(self).labels().len() <= old(self).labels().len() + 2,
            total_len(final(self).adjacency()) == total_len(old(self).adjacency()) + if old(
                self,
            ).is_directed() {
                1nat
            } else {
                2nat
            },
            final(self).adjacency() == linked(
                padded(old(self).adjacency(), final(self).labels().len()),
                final(self).labels().index_of(u),
                final(self).labels().index_of(v),
                old(self).is_directed(),
            ),
    ;

    /// Number of adjacency entries, halved when edges are mirrored.
    fn num_of_edges(&self) -> (r: usize)
        requires
            self.wf(),
        ensures
            r == edge_count(self.adjacency(), self.is_directed()),
    ;

    /// Neighbours of node `n`, in insertion order.
    fn edges(&self, n: usize) -> (r: &Vec<usize>)
        requires
            self.wf(),
            n < self.labels().len(),
        ensures
            r@ == self.adjacency()[n as int],
    ;

    /// Index of a registered label.
    fn index(&self, n: &T) -> (r: usize)
        requires
            self.wf(),
            obeys_concrete_eq::<T>(),
            self.labels().contains(*n),
        ensures
            r < self.labels().len(),
            self.labels()[r as int] == *n,
    ;

    /// Label of node `i`.
    fn key(&self, i: usize) -> (r: &T)
        requires
            self.wf(),
            i < self.labels().len(),
        ensures
            *r == self.labels()[i as int],
    ;
}

/// Relies on `Rc::clone`: the new handle points to the same value.
#[verifier::external_body]
fn share<T>(r: &Rc<T>) -> (s: Rc<T>)
    ensures
        s == *r,
{
    Rc::clone(r)
}

/// Adjacency-list graph. Each distinct label is held once, in a shared
/// allocation that both the index table and the label table point to.
#[derive(Debug)]
pub struct AdjGraph<T: Eq> {
    /// Neighbour lists, by node index.
    adj: Vec<Vec<usize>>,
    /// Label-to-index table, searched by label.
    nodes: Vec<(Rc<T>, usize)>,
    /// Index-to-label table.
    keys: Vec<Rc<T>>,
    is_direct: bool,
}

impl<T: Eq> AdjGraph<T> {
    pub closed spec fn spec_labels(&self) -> Seq<T> {
        self.keys@.map_values(|r: Rc<T>| *r)
    }

    pub closed spec fn spec_adjacency(&self) -> Seq<Seq<usize>> {
        self.adj@.map_values(|l: Vec<usize>| l@)
    }

    pub closed spec fn spec_wf(&self) -> bool {
        &&& self.adj.len() == self.keys.len()
        &&& self.nodes.len() == self.keys.len()
        &&& forall|i: int|
            0 <= i < self.nodes.len() ==> (#[trigger] self.nodes@[i]).0 == self.keys@[i]
                && self.nodes@[i].1 == i
        &&& well_shaped(self.spec_adjacency(), self.spec_labels())
        &&& total_len(self.spec_adjacency()) <= usize::MAX
    }

    /// An empty store; `is_direct` fixes whether edges are mirrored.
    pub fn new(is_direct: bool) -> (r: Self)
        ensures
            r.wf(),
            r.labels().len() == 0,
            r.adjacency().len() == 0,
            r.is_directed() == is_direct,
    {
        let r = AdjGraph { adj: Vec::new(), nodes: Vec::new(), keys: Vec::new(), is_direct };
        assert(r.spec_adjacency() =~= Seq::empty());
        r
    }

    /// The shared handle that holds the label of node `i`.
    pub fn shared_key(&self, i: usize) -> (r: &Rc<T>)
        requires
            self.wf(),
            i < self.labels().len(),
        ensures
            **r == self.labels()[i as int],
    {
        &self.keys[i]
    }

    /// Appends `v` to the adjacency list of `u`.
    fn insert_adj(&mut self, u: usize, v: usize)
        requires
            old(self).spec_wf(),
            u < old(self).keys.len(),
            v < old(self).keys.len(),
            total_len(old(self).spec_adjacency()) + 1 <= usize::MAX,
        ensures
            final(self).spec_wf(),
            final(self).is_direct == old(self).is_direct,
            final(self).spec_labels() == old(self).spec_labels(),
            final(self).spec_adjacency() == add_arc(old(self).spec_adjacency(), u as int, v as int),
            total_len(final(self).spec_adjacency()) == total_len(old(self).spec_adjacency()) + 1,
    {
        let ghost before = self.spec_adjacency();
        self.adj[u].push(v);
        proof {
            assert(self.spec_adjacency() =~= add_arc(before, u as int, v as int));
            lemma_total_update(before, u as int, before[u as int].push(v));
            assert(self.spec_labels() =~= old(self).spec_labels());
            let a = self.spec_adjacency();
            assert forall|i: int, k: int| 0 <= i < a.len() && 0 <= k < a[i].len() implies #[trigger] a[i][k]
                < a.len() by {
                if i == u && k == before[i].len() {
                } else {
                    assert(a[i][k] == before[i][k]);
                }
            }
        }
    }

    /// Registers a label and returns its index; a known label keeps its index.
    fn insert_node(&mut self, n: T) -> (r: usize)
        requires
            old(self).spec_wf(),
            obeys_concrete_eq::<T>(),
            old(self).keys.len() + 1 <= usize::MAX,
        ensures
            final(self).spec_wf(),
            final(self).is_direct == old(self).is_direct,
            final(self).spec_labels() == with_label(old(self).spec_labels(), n),
            final(self).spec_adjacency() == padded(
                old(self).spec_adjacency(),
                final(self).spec_labels().len(),
            ),
            total_len(final(self).spec_adjacency()) == total_len(old(self).spec_adjacency()),
            r < final(self).spec_labels().len(),
            final(self).spec_labels()[r as int] == n,
    {
        let ghost labels = self.spec_labels();
        let ghost adj = self.spec_adjacency();
        let mut j: usize = 0;
        while j < self.nodes.len()
            invariant
                self.is_direct == old(self).is_direct,
                labels == old(self).spec_labels(),
                adj == old(self).spec_adjacency(),
                labels == self.spec_labels(),
                adj == self.spec_adjacency(),
                self.spec_wf(),
                obeys_concrete_eq::<T>(),
                j <= self.nodes.len(),
                forall|i: int| 0 <= i < j ==> labels[i] != n,
            decreases self.nodes.len() - j,
        {
            let found = (*self.nodes[j].0).eq(&n);
            proof {
                reveal(obeys_concrete_eq);
                assert(self.nodes@[j as int].0 == self.keys@[j as int]);
                assert(labels[j as int] == *self.keys@[j as int]);
                assert(found == (labels[j as int] == n));
            }
            if found {
                let i = self.nodes[j].1;
                proof {
                    assert(labels.contains(n));
                    assert(self.spec_adjacency() =~= padded(adj, labels.len()));
                }
                return i;
            }
            j += 1;
        }
        let size = self.keys.len();
        let shared = Rc::new(n);
        self.nodes.push((share(&shared), size));
        self.keys.push(shared);
        self.adj.push(Vec::new());
        proof {
            assert(!labels.contains(n));
            assert(self.spec_labels() =~= labels.push(n));
            assert(self.spec_adjacency() =~= padded(adj, labels.len() + 1));
            assert(self.spec_adjacency().drop_last() =~= adj);
            let a = self.spec_adjacency();
            assert forall|i: int, k: int| 0 <= i < a.len() && 0 <= k < a[i].len() implies #[trigger] a[i][k]
                < a.len() by {
                assert(a[i][k] == adj[i][k]);
            }
        }
        size
    }
}

impl<T: Eq> Graph<T> for AdjGraph<T> {
    closed spec fn wf(&self) -> bool {
        &&& self.spec_wf()
        &&& !self.is_direct ==> symmetric(self.spec_adjacency())
    }

    closed spec fn labels(&self) -> Seq<T> {
        self.spec_labels()
    }

    closed spec fn adjacency(&self) -> Seq<Seq<usize>> {
        self.spec_adjacency()
    }

    closed spec fn is_directed(&self) -> bool {
        self.is_direct
    }

    proof fn lemma_shape(&self) {
    }

    fn num_of_nodes(&self) -> (r: usize) {
        self.adj.len()
    }

    fn insert(&mut self, u: T, v: T) {
        let ghost labels0 = self.spec_labels();
        let ghost adj0 = self.spec_adjacency();
        let u = self.insert_node(u);
        let v = self.insert_node(v);
        let ghost labels = self.spec_labels();
        let ghost adj1 = self.spec_adjacency();
        proof {
            assert(labels.contains(labels[u as int]));
            assert(labels.contains(labels[v as int]));
            assert(adj1 =~= padded(adj0, labels.len()));
        }
        self.insert_adj(u, v);
        if !self.is_direct {
            self.insert_adj(v, u);
            proof {
                lemma_padded_symmetric(adj0, labels.len());
                lemma_link_symmetric(adj1, u, v);
            }
        }
    }

    fn num_of_edges(&self) -> (r: usize) {
        let ghost adj = self.spec_adjacency();
        let mut s: usize = 0;
        let mut i: usize = 0;
        while i < self.adj.len()
            invariant
                self.spec_wf(),
                adj == self.spec_adjacency(),
                i <= self.adj.len(),
                s == total_len(adj.take(i as int)),
            decreases self.adj.len() - i,
        {
            proof {
                assert(adj.take(i + 1).drop_last() =~= adj.take(i as int));
                lemma_total_prefix(adj, i + 1);
            }
            s = s + self.adj[i].len();
            i += 1;
        }
        proof {
            assert(adj.take(i as int) =~= adj);
        }
        if self.is_direct {
            s
        } else {
            s / 2
        }
    }

    fn edges(&self, n: usize) -> (r: &Vec<usize>) {
        &self.adj[n]
    }

    fn index(&self, n: &T) -> (r: usize) {
        let ghost labels = self.spec_labels();
        let mut j: usize = 0;
        while j < self.nodes.len()
            invariant
                labels == self.spec_labels(),
                self.spec_wf(),
                obeys_concrete_eq::<T>(),
                labels.contains(*n),
                j <= self.nodes.len(),
                forall|i: int| 0 <= i < j ==> labels[i] != *n,
            decreases self.nodes.len() - j,
        {
            let found = (*self.nodes[j].0).eq(n);
            proof {
                reveal(obeys_concrete_eq);
                assert(self.nodes@[j as int].0 == self.keys@[j as int]);
                assert(labels[j as int] == *self.keys@[j as int]);
                assert(found == (labels[j as int] == *n));
            }
            if found {
                return self.nodes[j].1;
            }
            j += 1;
        }
        // The label is present, so the scan above has returned.
        proof {
            let i = choose|i: int| 0 <= i < labels.len() && labels[i] == *n;
        }
        0
    }

    fn key(&self, i: usize) -> (r: &T) {
        &*self.keys[i]
    }
}

/// A label that was inserted is found again: its index is the one position
/// holding it, and the label stored there is the label itself.
pub proof fn lemma_key_of_index<T, G: Graph<T>>(g: &G, l: T)
    where
        T: Eq,
    requires
        g.wf(),
        g.labels().contains(l),
    ensures
        0 <= g.labels().index_of(l) < g.labels().len(),
        g.labels()[g.labels().index_of(l)] == l,
        forall|i: int| 0 <= i < g.labels().len() && g.labels()[i] == l ==> i == g.labels().index_of(l),
{
    g.lemma_shape();
}

/// Inserting an edge again between two known labels adds no node and exactly
/// one edge, directed or not: edges are not merged.
pub proof fn lemma_reinsert_adds_edge<T, G: Graph<T>>(before: &G, after: &G, u: T, v: T)
    where
        T: Eq,
    requires
        before.wf(),
        before.labels().contains(u),
        before.labels().contains(v),
        after.is_directed() == before.is_directed(),
        after.labels() == with_label(with_label(before.labels(), u), v),
        after.adjacency() == linked(
            padded(before.adjacency(), after.labels().len()),
            after.labels().index_of(u),
            after.labels().index_of(v),
            before.is_directed(),
        ),
    ensures
        after.labels().len() == before.labels().len(),
        edge_count(after.adjacency(), after.is_directed()) == edge_count(
            before.adjacency(),
            before.is_directed(),
        ) + 1,
{
    before.lemma_shape();
    let labels = before.labels();
    let adj = before.adjacency();
    assert(after.labels() == labels);
    assert(padded(adj, labels.len()) =~= adj);
    let a = labels.index_of(u);
    let b = labels.index_of(v);
    let once = add_arc(adj, a, b);
    lemma_total_update(adj, a, adj[a].push(b as usize));
    if !before.is_directed() {
        lemma_total_update(once, b, once[b].push(a as usize));
    }
}

/// Every entry names an existing node.
pub open spec fn entries_in_range(adj: Seq<Seq<usize>>) -> bool {
    forall|i: int, k: int| 0 <= i < adj.len() && 0 <= k < adj[i].len() ==> #[trigger] adj[i][k] < adj.len()
}

/// Adding empty lists keeps every entry mirrored.
proof fn lemma_padded_symmetric(adj: Seq<Seq<usize>>, n: nat)
    requires
        symmetric(adj),
        entries_in_range(adj),
        adj.len() <= n,
    ensures
        symmetric(padded(adj, n)),
{
    let p = padded(adj, n);
    assert forall|x: usize, k: int| x < p.len() && 0 <= k < p[x as int].len() implies step(
        p,
        #[trigger] p[x as int][k],
        x,
    ) by {
        assert(x < adj.len());
        assert(p[x as int][k] == adj[x as int][k]);
        let y = adj[x as int][k];
        assert(step(adj, y, x));
        assert(y < adj.len());
        let k2 = choose|k2: int| 0 <= k2 < adj[y as int].len() && adj[y as int][k2] == x;
        assert(p[y as int][k2] == x);
    }
}

/// Recording an edge in both directions keeps every entry mirrored.
proof fn lemma_link_symmetric(adj: Seq<Seq<usize>>, a: usize, b: usize)
    requires
        symmetric(adj),
        entries_in_range(adj),
        a < adj.len(),
        b < adj.len(),
    ensures
        symmetric(add_arc(add_arc(adj, a as int, b as int), b as int, a as int)),
{
    let once = add_arc(adj, a as int, b as int);
    let twice = add_arc(once, b as int, a as int);
    assert forall|z: int, k2: int| 0 <= z < adj.len() && 0 <= k2 < adj[z].len() implies twice[z][k2]
        == adj[z][k2] by {
    }
    assert(twice[a as int][adj[a as int].len() as int] == b);
    assert(twice[b as int][once[b as int].len() as int] == a);
    assert forall|x: usize, k: int| x < twice.len() && 0 <= k < twice[x as int].len() implies step(
        twice,
        #[trigger] twice[x as int][k],
        x,
    ) by {
        let y = twice[x as int][k];
        if k < adj[x as int].len() {
            assert(y == adj[x as int][k]);
            assert(step(adj, y, x));
            assert(y < adj.len());
            let k2 = choose|k2: int| 0 <= k2 < adj[y as int].len() && adj[y as int][k2] == x;
            assert(twice[y as int][k2] == x);
        } else if x == a && k == adj[a as int].len() {
            assert(y == b);
        } else {
            assert(x == b);
            assert(y == a);
        }
    }
}

/// Replacing one list changes the total by the difference in lengths.
proof fn lemma_total_update(adj: Seq<Seq<usize>>, a: int, l: Seq<usize>)
    requires
        0 <= a < adj.len(),
    ensures
        total_len(adj.update(a, l)) == total_len(adj) - adj[a].len() + l.len(),
    decreases adj.len(),
{
    let b = adj.update(a, l);
    if a == adj.len() - 1 {
        assert(b.drop_last() =~= adj.drop_last());
    } else {
        assert(b.drop_last() =~= adj.drop_last().update(a, l));
        lemma_total_update(adj.drop_last(), a, l);
    }
}

/// A prefix holds no more entries than the whole.
proof fn lemma_total_prefix(adj: Seq<Seq<usize>>, k: int)
    requires
        0 <= k <= adj.len(),
    ensures
        total_len(adj.take(k)) <= total_len(adj),
    decreases adj.len(),
{
    if k == adj.len() {
        assert(adj.take(k) =~= adj);
    } else {
        assert(adj.take(k) =~= adj.drop_last().take(k));
        lemma_total_prefix(adj.drop_last(), k);
    }
}

} // verus!
