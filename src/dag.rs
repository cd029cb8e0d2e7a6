//! Directed graphs ([Dag]) and [Path]s through them.
//!
//! Nodes are interned: every distinct node value is stored once and edges are
//! kept as adjacency lists of node indices. The abstract state of a graph is its
//! edge relation, a map from every left-hand node to the set of nodes it points to.

use vstd::prelude::*;

verus! {

/// A value that can stand as a node of a [Dag].
///
/// Two nodes are the same node exactly when their views are equal.
pub trait DagNode: View + Sized {
    /// Whether `self` and `other` are the same node.
    fn same(&self, other: &Self) -> (r: bool)
        ensures
            r == (self@ == other@),
    ;

    /// A copy of the node.
    fn duplicate(&self) -> (r: Self)
        ensures
            r@ == self@,
    ;
}

impl DagNode for String {
    fn same(&self, other: &Self) -> (r: bool) {
        *self == *other
    }

    fn duplicate(&self) -> (r: Self) {
        self.clone()
    }
}

/// A directed graph, represented through its edge relation.
///
/// A node is anything on the left- or right-hand side of the relation; only nodes
/// on the left-hand side are keys of [Dag::view].
pub struct Dag<T: DagNode> {
    /// Every node that was ever mentioned, each value once.
    nodes: Vec<T>,
    /// Whether `nodes[i]` appears on the left-hand side.
    keyed: Vec<bool>,
    /// `succ[i]` lists the indices that `nodes[i]` points to, without repetition.
    succ: Vec<Vec<usize>>,
    /// The indices of the left-hand nodes in order of insertion.
    keys: Vec<usize>,
    /// Every edge once, as a pair of indices.
    edge_list: Vec<(usize, usize)>,
    graph: Ghost<Map<T::V, Set<T::V>>>,
    index: Ghost<Map<T::V, usize>>,
}

/// The set of edges of an edge relation.
#[verifier::opaque]
pub open spec fn edge_set<V>(g: Map<V, Set<V>>) -> Set<(V, V)> {
    Set::new(|e: (V, V)| g.contains_key(e.0) && g[e.0].contains(e.1))
}

/// Whether `p` is a walk through the edge relation `g`: at least one node, each
/// consecutive pair joined by an edge.
pub open spec fn is_walk<V>(g: Map<V, Set<V>>, p: Seq<V>) -> bool {
    &&& p.len() >= 1
    &&& forall|k: int|
        0 <= k < p.len() - 1 ==> #[trigger] g.contains_key(p[k]) && g[p[k]].contains(p[k + 1])
}

/// Whether `b` is reachable from `a` in `g` (every node reaches itself).
pub open spec fn reaches<V>(g: Map<V, Set<V>>, a: V, b: V) -> bool {
    exists|p: Seq<V>| is_walk(g, p) && p[0] == a && p.last() == b
}

/// The views of a sequence of values.
pub open spec fn views<T: View>(s: Seq<T>) -> Seq<T::V> {
    s.map_values(|t: T| t@)
}

/// Whether `row` holds `b`.
fn row_contains(row: &Vec<usize>, b: usize) -> (r: bool)
    ensures
        r == row@.contains(b),
{
    let mut k: usize = 0;
    while k < row.len()
        invariant
            k <= row@.len(),
            forall|j: int| 0 <= j < k ==> row@[j] != b,
        decreases row@.len() - k,
    {
        if row[k] == b {
            return true;
        }
        k = k + 1;
    }
    false
}


/// Whether `pred` gives the same answer on any two values with the same view.
pub open spec fn view_determined<T: View, F: Fn(&T) -> bool>(pred: F) -> bool {
    forall|t1: T, t2: T, r1: bool, r2: bool|
        #![trigger pred.ensures((&t1,), r1), pred.ensures((&t2,), r2)]
        t1@ == t2@ && pred.ensures((&t1,), r1) && pred.ensures((&t2,), r2) ==> r1 == r2
}

/// Whether `pred` holds of a value whose view is `v`.
pub open spec fn satisfies<T: View, F: Fn(&T) -> bool>(pred: F, v: T::V) -> bool {
    exists|t: T| #[trigger] pred.ensures((&t,), true) && t@ == v
}

/// The number of `false` entries of `s`.
spec fn count_false(s: Seq<bool>) -> nat
    decreases s.len(),
{
    if s.len() == 0 {
        0
    } else {
        count_false(s.drop_last()) + if s.last() {
            0nat
        } else {
            1nat
        }
    }
}

proof fn lemma_count_false_set(s: Seq<bool>, i: int)
    requires
        0 <= i < s.len(),
        !s[i],
    ensures
        count_false(s.update(i, true)) + 1 == count_false(s),
    decreases s.len(),
{
    let t = s.update(i, true);
    if i < s.len() - 1 {
        assert(t.drop_last() =~= s.drop_last().update(i, true));
        lemma_count_false_set(s.drop_last(), i);
    } else {
        assert(t.drop_last() =~= s.drop_last());
    }
}

/// Whether some entry of the stack stands at node `v`.
spec fn on_stack(st: Seq<(usize, Vec<usize>)>, v: usize) -> bool {
    exists|k: int| 0 <= k < st.len() && (#[trigger] st[k]).0 == v
}

/// A copy of a list of indices.
fn copy_indices(p: &Vec<usize>) -> (r: Vec<usize>)
    ensures
        r@ == p@,
{
    let mut r: Vec<usize> = Vec::new();
    let mut k: usize = 0;
    while k < p.len()
        invariant
            k <= p@.len(),
            r@ == p@.take(k as int),
        decreases p@.len() - k,
    {
        r.push(p[k]);
        k = k + 1;
        assert(r@ =~= p@.take(k as int));
    }
    assert(p@.take(p@.len() as int) =~= p@);
    r
}

/// A list of `n` times `false`.
fn all_false(n: usize) -> (r: Vec<bool>)
    ensures
        r@.len() == n,
        forall|i: int| 0 <= i < n ==> !#[trigger] r@[i],
{
    let mut r: Vec<bool> = Vec::new();
    while r.len() < n
        invariant
            r@.len() <= n,
            forall|i: int| 0 <= i < r@.len() ==> !#[trigger] r@[i],
        decreases n - r@.len(),
    {
        r.push(false);
    }
    r
}

/// A path through a [Dag]: the nodes it visits, in order. Paths found in a graph
/// are never empty.
pub struct Path<T>(pub Vec<T>);

impl<T: View> View for Path<T> {
    type V = Seq<T::V>;

    open spec fn view(&self) -> Seq<T::V> {
        views(self.0@)
    }
}

impl<T: View> Path<T> {
    /// The number of hops (edges) in the path, one less than the number of nodes.
    pub fn num_hops(&self) -> (r: usize)
        requires
            self.0@.len() >= 1,
        ensures
            r == self.0@.len() - 1,
    {
        self.0.len() - 1
    }

    /// The number of nodes in the path.
    pub fn num_nodes(&self) -> (r: usize)
        ensures
            r == self.0@.len(),
    {
        self.0.len()
    }

    /// The path of the values that `f` gives for each node, keeping `self`.
    pub fn translate_borrowed<U, F: Fn(&T) -> U>(&self, f: F) -> (r: Path<U>)
        requires
            forall|i: int| 0 <= i < self.0@.len() ==> f.requires((&self.0@[i],)),
        ensures
            r.0@.len() == self.0@.len(),
            forall|i: int| 0 <= i < self.0@.len() ==> f.ensures((&self.0@[i],), #[trigger] r.0@[i]),
    {
        let mut out: Vec<U> = Vec::new();
        let mut k: usize = 0;
        while k < self.0.len()
            invariant
                k <= self.0@.len(),
                out@.len() == k,
                forall|i: int| 0 <= i < self.0@.len() ==> f.requires((&self.0@[i],)),
                forall|i: int| 0 <= i < k ==> f.ensures((&self.0@[i],), #[trigger] out@[i]),
            decreases self.0@.len() - k,
        {
            let u = f(&self.0[k]);
            out.push(u);
            k = k + 1;
        }
        Path(out)
    }

    /// The path of the values that `f` gives for each node, consuming `self`.
    pub fn translate_owned<U, F: Fn(&T) -> U>(self, f: F) -> (r: Path<U>)
        requires
            forall|i: int| 0 <= i < self.0@.len() ==> f.requires((&self.0@[i],)),
        ensures
            r.0@.len() == self.0@.len(),
            forall|i: int| 0 <= i < self.0@.len() ==> f.ensures((&self.0@[i],), #[trigger] r.0@[i]),
    {
        self.translate_borrowed(f)
    }
}

impl<T: DagNode> View for Dag<T> {
    type V = Map<T::V, Set<T::V>>;

    closed spec fn view(&self) -> Map<T::V, Set<T::V>> {
        self.graph@
    }
}

impl<T: DagNode> Dag<T> {
    /// The internal invariant of the graph.
    pub closed spec fn wf(&self) -> bool {
        let n = self.nodes@.len();
        &&& self.keyed@.len() == n
        &&& self.succ@.len() == n
        &&& forall|i: int|
            0 <= i < n ==> #[trigger] self.index@.contains_key(self.nodes@[i]@) && self.index@[self.nodes@[i]@] as int == i
        &&& forall|v: T::V|
            #[trigger] self.index@.contains_key(v) ==> self.index@[v] < n && self.nodes@[self.index@[v] as int]@ == v
        &&& forall|i: int| 0 <= i < n ==> (#[trigger] self.keyed@[i] <==> self.graph@.contains_key(self.nodes@[i]@))
        &&& forall|v: T::V| #[trigger] self.graph@.contains_key(v) ==> self.index@.contains_key(v)
        &&& forall|i: int, k: int|
            0 <= i < n && 0 <= k < self.succ@[i]@.len() ==> #[trigger] self.succ@[i]@[k] < n
        &&& forall|i: int| 0 <= i < n ==> (#[trigger] self.succ@[i]@).no_duplicates()
        &&& forall|i: int| 0 <= i < n && !self.keyed@[i] ==> (#[trigger] self.succ@[i]@).len() == 0
        &&& forall|i: int, b: T::V|
            0 <= i < n && self.keyed@[i] ==> (#[trigger] self.graph@[self.nodes@[i]@].contains(b) <==> (
            self.index@.contains_key(b) && self.succ@[i]@.contains(self.index@[b])))
        &&& self.keys@.no_duplicates()
        &&& forall|k: int| 0 <= k < self.keys@.len() ==> #[trigger] self.keys@[k] < n && self.keyed@[self.keys@[k] as int]
        &&& forall|i: int| 0 <= i < n && #[trigger] self.keyed@[i] ==> self.keys@.contains(i as usize)
        &&& self.graph@.dom().finite()
        &&& self.keys@.len() == self.graph@.dom().len()
        &&& edge_set(self.graph@).finite()
        &&& self.edge_list@.len() == edge_set(self.graph@).len()
    }

    proof fn lemma_distinct(&self, i: int, j: int)
        requires
            self.wf(),
            0 <= i < self.nodes@.len(),
            0 <= j < self.nodes@.len(),
            i != j,
        ensures
            self.nodes@[i]@ != self.nodes@[j]@,
    {
        assert(self.index@.contains_key(self.nodes@[i]@));
        assert(self.index@.contains_key(self.nodes@[j]@));
    }

    /// The stored value of node `v`.
    pub closed spec fn stored(&self, v: T::V) -> T {
        self.nodes@[self.index@[v] as int]
    }

    /// Whether `v` is a node of the graph, on either side of the relation.
    pub open spec fn has_node(&self, v: T::V) -> bool {
        self@.contains_key(v) || exists|a: T::V| #[trigger] self@.contains_key(a) && self@[a].contains(v)
    }

    /// The stored value of a node has the node's view.
    pub proof fn lemma_stored(&self, v: T::V)
        requires
            self.wf(),
            self.has_node(v),
        ensures
            self.stored(v)@ == v,
    {
        if !self@.contains_key(v) {
            let a = choose|a: T::V| #[trigger] self@.contains_key(a) && self@[a].contains(v);
            let i = self.index@[a] as int;
            assert(self.index@.contains_key(self.nodes@[i]@));
            assert(self.keyed@[i]);
        }
    }

    /// Create a new empty graph.
    pub fn new() -> (r: Self)
        ensures
            r.wf(),
            r@ == Map::<T::V, Set<T::V>>::empty(),
    {
        let r = Dag {
            nodes: Vec::new(),
            keyed: Vec::new(),
            succ: Vec::new(),
            keys: Vec::new(),
            edge_list: Vec::new(),
            graph: Ghost(Map::empty()),
            index: Ghost(Map::empty()),
        };
        proof {
            reveal(edge_set);
            assert(edge_set(r.graph@) =~= Set::empty());
        }
        r
    }

    /// The index of `t`, if it was mentioned before.
    fn find(&self, t: &T) -> (r: Option<usize>)
        requires
            self.wf(),
        ensures
            match r {
                Some(i) => i < self.nodes@.len() && self.nodes@[i as int]@ == t@ && self.index@.contains_key(t@)
                    && self.index@[t@] == i,
                None => !self.index@.contains_key(t@),
            },
    {
        let mut i: usize = 0;
        while i < self.nodes.len()
            invariant
                self.wf(),
                i <= self.nodes@.len(),
                forall|j: int| 0 <= j < i ==> self.nodes@[j]@ != t@,
            decreases self.nodes@.len() - i,
        {
            if self.nodes[i].same(t) {
                assert(self.index@.contains_key(self.nodes@[i as int]@));
                return Some(i);
            }
            i = i + 1;
        }
        None
    }

    /// The index of `t`, storing it first if it is new. The edge relation is unchanged.
    fn intern(&mut self, t: T) -> (r: usize)
        requires
            old(self).wf(),
        ensures
            final(self).wf(),
            final(self)@ == old(self)@,
            r < final(self).nodes@.len(),
            final(self).nodes@[r as int]@ == t@,
            final(self).index@.contains_key(t@),
            final(self).index@[t@] == r,
            forall|v: T::V| old(self).index@.contains_key(v) ==> final(self).index@.contains_key(v)
                && final(self).index@[v] == old(self).index@[v],
            final(self).nodes@.len() >= old(self).nodes@.len(),
            forall|j: int| 0 <= j < old(self).nodes@.len() ==> final(self).nodes@[j] == old(self).nodes@[j],
            forall|j: int| 0 <= j < old(self).nodes@.len() ==> final(self).keyed@[j] == old(self).keyed@[j]
                && final(self).succ@[j] == old(self).succ@[j],
            final(self).keys@ == old(self).keys@,
            final(self).edge_list@.len() == old(self).edge_list@.len(),
    {
        match self.find(&t) {
            Some(i) => i,
            None => {
                let i = self.nodes.len();
                let ghost v = t@;
                self.nodes.push(t);
                self.keyed.push(false);
                self.succ.push(Vec::new());
                self.index = Ghost(self.index@.insert(v, i));
                proof {
                    let n = self.nodes@.len();
                    assert(self.nodes@[i as int]@ == v);
                    assert forall|j: int| 0 <= j < n implies #[trigger] self.index@.contains_key(self.nodes@[j]@) && self.index@[self.nodes@[j]@] as int == j by {
                        if j < i {
                            assert(old(self).index@.contains_key(old(self).nodes@[j]@));
                        }
                    }
                    assert forall|i2: int, b: T::V|
                        0 <= i2 < n && self.keyed@[i2] implies (#[trigger] self.graph@[self.nodes@[i2]@].contains(b) <==> (
                        self.index@.contains_key(b) && self.succ@[i2]@.contains(self.index@[b]))) by {
                        assert(i2 < i);
                        if self.succ@[i2]@.contains(self.index@[b]) && self.index@.contains_key(b) {
                            let k = choose|k: int| 0 <= k < self.succ@[i2]@.len() && self.succ@[i2]@[k] == self.index@[b];
                            assert(old(self).succ@[i2]@[k] < i);
                            if b == v {
                                assert(false);
                            }
                        }
                    }
                    assert forall|k: int| 0 <= k < self.keys@.len() implies #[trigger] self.keys@[k] < n && self.keyed@[self.keys@[k] as int] by {
                        assert(old(self).keys@[k] < i);
                    }
                }
                i
            },
        }
    }

    /// Make node `a` a left-hand node, with no new edges.
    fn mark_key(&mut self, a: usize)
        requires
            old(self).wf(),
            a < old(self).nodes@.len(),
        ensures
            final(self).wf(),
            final(self)@ == (if old(self)@.contains_key(old(self).nodes@[a as int]@) {
                old(self)@
            } else {
                old(self)@.insert(old(self).nodes@[a as int]@, Set::empty())
            }),
            final(self).nodes@ == old(self).nodes@,
            final(self).index@ == old(self).index@,
            final(self).succ@ == old(self).succ@,
            final(self).keyed@[a as int],
            final(self).edge_list@.len() == old(self).edge_list@.len(),
    {
        if !self.keyed[a] {
            let ghost v = self.nodes@[a as int]@;
            let ghost old_g = self.graph@;
            self.keyed.set(a, true);
            self.keys.push(a);
            self.graph = Ghost(self.graph@.insert(v, Set::empty()));
            proof {
                assert(!old_g.contains_key(v));
                assert(self.graph@.dom() =~= old_g.dom().insert(v));
                assert(!old(self).keys@.contains(a)) by {
                    if old(self).keys@.contains(a) {
                        let k = choose|k: int| 0 <= k < old(self).keys@.len() && old(self).keys@[k] == a;
                        assert(old(self).keyed@[old(self).keys@[k] as int]);
                    }
                }
                assert(edge_set(self.graph@) =~= edge_set(old_g)) by {
                    reveal(edge_set);
                    assert forall|e: (T::V, T::V)| edge_set(self.graph@).contains(e) implies edge_set(old_g).contains(e) by {
                        if e.0 == v {
                            assert(self.graph@[v] =~= Set::empty());
                        }
                    }
                }
                let n = self.nodes@.len();
                assert forall|i: int| 0 <= i < n && #[trigger] self.keyed@[i] implies self.keys@.contains(i as usize) by {
                    if i != a {
                        assert(old(self).keyed@[i]);
                        let k = choose|k: int| 0 <= k < old(self).keys@.len() && old(self).keys@[k] == i as usize;
                        assert(self.keys@[k] == i as usize);
                    } else {
                        assert(self.keys@[self.keys@.len() - 1] == a);
                    }
                }
                assert forall|i: int, b: T::V|
                    0 <= i < n && self.keyed@[i] implies (#[trigger] self.graph@[self.nodes@[i]@].contains(b) <==> (
                    self.index@.contains_key(b) && self.succ@[i]@.contains(self.index@[b]))) by {
                    if i == a {
                        if self.succ@[i]@.contains(self.index@[b]) {
                            assert(self.succ@[i]@.len() == 0);
                        }
                    }
                }
                assert forall|i: int| 0 <= i < n && !self.keyed@[i] implies (#[trigger] self.succ@[i]@).len() == 0 by {
                    assert(i != a);
                }
                assert forall|i: int| 0 <= i < n implies (#[trigger] self.keyed@[i] <==> self.graph@.contains_key(self.nodes@[i]@)) by {
                    if i != a {
                        old(self).lemma_distinct(i, a as int);
                    }
                }
            }
        }
    }

    /// Add a node without any edges. Adding an existing node changes nothing.
    pub fn add_node(&mut self, node: T)
        requires
            old(self).wf(),
        ensures
            final(self).wf(),
            final(self)@ == (if old(self)@.contains_key(node@) {
                old(self)@
            } else {
                old(self)@.insert(node@, Set::empty())
            }),
    {
        let a = self.intern(node);
        self.mark_key(a);
    }

    /// Connect `from` to `to`. Adding an existing edge changes nothing.
    pub fn add_edge(&mut self, from: T, to: T)
        requires
            old(self).wf(),
        ensures
            final(self).wf(),
            final(self)@ == old(self)@.insert(
                from@,
                (if old(self)@.contains_key(from@) {
                    old(self)@[from@]
                } else {
                    Set::empty()
                }).insert(to@),
            ),
    {
        let ghost fv = from@;
        let ghost tv = to@;
        let a = self.intern(from);
        let b = self.intern(to);
        self.mark_key(a);
        let ghost mid = *self;
        let ghost succ0 = self.succ@;
        let mut row: Vec<usize> = Vec::new();
        self.succ.set_and_swap(a, &mut row);
        let mut k: usize = 0;
        let mut present = false;
        let ghost pre_loop = *self;
        while k < row.len()
            invariant
                *self == pre_loop,
                0 <= k <= row@.len(),
                present == (exists|j: int| 0 <= j < k && row@[j] == b),
            decreases row@.len() - k,
        {
            if row[k] == b {
                present = true;
            }
            k = k + 1;
        }
        assert(present == row@.contains(b));
        let ghost old_row = row@;
        let ghost g0 = self.graph@;
        if !present {
            row.push(b);
            self.edge_list.push((a, b));
            self.graph = Ghost(self.graph@.insert(fv, self.graph@[fv].insert(tv)));
        }
        self.succ.set_and_swap(a, &mut row);
        proof {
            let n = self.nodes@.len();
            assert(self.nodes@[a as int]@ == fv);
            assert(self.nodes@[b as int]@ == tv);
            assert(self.index@[tv] == b);
            if present {
                assert(self.succ@ =~= succ0);
                assert(mid.wf());
                assert(self.graph@ == mid.graph@);
                assert(self.edge_list@ == mid.edge_list@);
                assert(edge_set(mid.graph@).finite());
                assert(edge_set(self.graph@).finite());
                assert(g0[fv].contains(tv));
                assert(g0[fv].insert(tv) =~= g0[fv]);
                assert(g0.insert(fv, g0[fv].insert(tv)) =~= g0);
                assert(self.wf());
            } else {
                assert(!g0[fv].contains(tv));
                assert(self.graph@.dom() =~= g0.dom());
                assert(mid.wf());
                assert(g0 == mid.graph@);
                assert(edge_set(self.graph@) =~= edge_set(g0).insert((fv, tv))) by {
                    reveal(edge_set);
                }
                assert(!edge_set(g0).contains((fv, tv))) by {
                    reveal(edge_set);
                }
                assert(self.edge_list@.len() == mid.edge_list@.len() + 1);
                assert forall|i: int| 0 <= i < n implies (#[trigger] self.succ@[i]@).no_duplicates() by {
                    if i == a {
                        assert(self.succ@[i]@ == old_row.push(b));
                    }
                }
                assert forall|i: int, k2: int|
                    0 <= i < n && 0 <= k2 < self.succ@[i]@.len() implies #[trigger] self.succ@[i]@[k2] < n by {
                    if i == a && k2 == old_row.len() {
                        assert(self.succ@[i]@[k2] == b);
                    }
                }
                assert forall|i: int, c: T::V|
                    0 <= i < n && self.keyed@[i] implies (#[trigger] self.graph@[self.nodes@[i]@].contains(c) <==> (
                    self.index@.contains_key(c) && self.succ@[i]@.contains(self.index@[c]))) by {
                    if i == a {
                        assert(self.succ@[i]@ == old_row.push(b));
                        if self.index@.contains_key(c) && self.succ@[i]@.contains(self.index@[c]) {
                            let j = choose|j: int| 0 <= j < self.succ@[i]@.len() && self.succ@[i]@[j] == self.index@[c];
                            if j == old_row.len() {
                                assert(self.index@[c] == b);
                                assert(c == tv);
                            } else {
                                assert(old_row[j] == self.index@[c]);
                            }
                        }
                        if c != tv && g0[fv].contains(c) {
                            assert(old_row.contains(self.index@[c]));
                            let j = choose|j: int| 0 <= j < old_row.len() && old_row[j] == self.index@[c];
                            assert(self.succ@[i]@[j] == self.index@[c]);
                        }
                        if c == tv {
                            assert(self.succ@[i]@[old_row.len() as int] == b);
                        }
                    } else {
                        mid.lemma_distinct(i, a as int);
                    }
                }
                assert(self.wf());
            }
        }
    }

    /// Whether there is an edge from `from` to `to`.
    pub fn connected(&self, from: &T, to: &T) -> (r: bool)
        requires
            self.wf(),
        ensures
            r == (self@.contains_key(from@) && self@[from@].contains(to@)),
    {
        match self.find(from) {
            None => false,
            Some(a) => {
                if !self.keyed[a] {
                    return false;
                }
                match self.find(to) {
                    None => false,
                    Some(b) => row_contains(&self.succ[a], b),
                }
            },
        }
    }

    /// Whether `from` appears on the left-hand side of the edge relation.
    pub fn lhs_contains(&self, from: &T) -> (r: bool)
        requires
            self.wf(),
        ensures
            r == self@.contains_key(from@),
    {
        match self.find(from) {
            None => false,
            Some(a) => self.keyed[a],
        }
    }

    /// Whether `to` appears on the right-hand side of the edge relation.
    pub fn rhs_contains(&self, to: &T) -> (r: bool)
        requires
            self.wf(),
        ensures
            r == exists|a: T::V| #[trigger] self@.contains_key(a) && self@[a].contains(to@),
    {
        match self.find(to) {
            None => {
                assert forall|a: T::V| #[trigger] self@.contains_key(a) implies !self@[a].contains(to@) by {
                    let i = self.index@[a] as int;
                    assert(self.index@.contains_key(self.nodes@[i]@));
                }
                false
            },
            Some(b) => {
                let mut i: usize = 0;
                while i < self.nodes.len()
                    invariant
                        self.wf(),
                        b < self.nodes@.len(),
                        self.index@.contains_key(to@),
                        self.index@[to@] == b,
                        i <= self.nodes@.len(),
                        forall|j: int| 0 <= j < i ==> !(#[trigger] self.succ@[j]@).contains(b),
                    decreases self.nodes@.len() - i,
                {
                    if row_contains(&self.succ[i], b) {
                        assert(self.keyed@[i as int]);
                        assert(self@.contains_key(self.nodes@[i as int]@));
                        return true;
                    }
                    i = i + 1;
                }
                assert forall|a: T::V| #[trigger] self@.contains_key(a) implies !self@[a].contains(to@) by {
                    let j = self.index@[a] as int;
                    assert(self.index@.contains_key(self.nodes@[j]@));
                    assert(!self.succ@[j]@.contains(b));
                }
                false
            },
        }
    }

    /// The stored copy of the left-hand node `from`.
    pub fn lhs_node(&self, from: &T) -> (r: Option<&T>)
        requires
            self.wf(),
        ensures
            r.is_some() == self@.contains_key(from@),
            r matches Some(t) ==> t@ == from@,
    {
        match self.find(from) {
            None => None,
            Some(a) => {
                if self.keyed[a] {
                    Some(&self.nodes[a])
                } else {
                    None
                }
            },
        }
    }

    /// The left-hand nodes in the order in which they were first added.
    pub closed spec fn lhs_order(&self) -> Seq<T::V> {
        self.keys@.map_values(|i: usize| self.nodes@[i as int]@)
    }

    /// Whether left-hand node `a` has an edge to `to`.
    pub open spec fn points_to(&self, to: T::V) -> spec_fn(T::V) -> bool {
        |a: T::V| self@.contains_key(a) && self@[a].contains(to)
    }

    /// The left-hand nodes, each once, in order of insertion.
    pub fn lhs_nodes(&self) -> (r: Vec<T>)
        requires
            self.wf(),
        ensures
            views(r@).no_duplicates(),
            views(r@).to_set() == self@.dom(),
            views(r@) == self.lhs_order(),
    {
        let mut r: Vec<T> = Vec::new();
        let mut k: usize = 0;
        while k < self.keys.len()
            invariant
                self.wf(),
                k <= self.keys@.len(),
                r@.len() == k,
                forall|j: int| 0 <= j < k ==> (#[trigger] r@[j])@ == self.nodes@[self.keys@[j] as int]@,
            decreases self.keys@.len() - k,
        {
            r.push(self.nodes[self.keys[k]].duplicate());
            k = k + 1;
        }
        proof {
            let rv = views(r@);
            assert forall|x: int, y: int| 0 <= x < rv.len() && 0 <= y < rv.len() && x != y implies rv[x] != rv[y] by {
                assert(self.keys@[x] != self.keys@[y]);
                self.lemma_distinct(self.keys@[x] as int, self.keys@[y] as int);
            }
            assert forall|a: T::V| rv.to_set().contains(a) <==> self@.dom().contains(a) by {
                if rv.to_set().contains(a) {
                    let j = choose|j: int| 0 <= j < rv.len() && rv[j] == a;
                    assert(self.keyed@[self.keys@[j] as int]);
                }
                if self@.dom().contains(a) {
                    let i = self.index@[a] as int;
                    assert(self.index@.contains_key(self.nodes@[i]@));
                    assert(self.keyed@[i]);
                    assert(self.keys@.contains(i as usize));
                    let j = choose|j: int| 0 <= j < self.keys@.len() && self.keys@[j] == i as usize;
                    assert(rv[j] == a);
                }
            }
            assert(rv.to_set() =~= self@.dom());
            assert(rv =~= self.lhs_order());
        }
        r
    }

    /// Whether `v` is the right-hand side of some edge.
    pub open spec fn is_rhs(&self, v: T::V) -> bool {
        exists|a: T::V| #[trigger] self@.contains_key(a) && self@[a].contains(v)
    }

    /// A well-formed graph has finitely many left-hand nodes and edges.
    pub proof fn lemma_finite(&self)
        requires
            self.wf(),
        ensures
            self@.dom().finite(),
            edge_set(self@).finite(),
    {
    }

    /// The right-hand side of every edge: each target once per edge into it.
    pub fn rhs_nodes(&self) -> (r: Vec<T>)
        requires
            self.wf(),
        ensures
            forall|v: T::V| #[trigger] views(r@).contains(v) <==> self.is_rhs(v),
    {
        let mut r: Vec<T> = Vec::new();
        let mut k: usize = 0;
        while k < self.keys.len()
            invariant
                self.wf(),
                k <= self.keys@.len(),
                forall|j: int| 0 <= j < r@.len() ==> self.is_rhs(#[trigger] r@[j]@),
                forall|kk: int, m: int|
                    0 <= kk < k && 0 <= m < self.succ@[self.keys@[kk] as int]@.len() ==> views(r@).contains(
                        self.nodes@[#[trigger] self.succ@[self.keys@[kk] as int]@[m] as int]@,
                    ),
            decreases self.keys@.len() - k,
        {
            let i = self.keys[k];
            let mut m: usize = 0;
            while m < self.succ[i].len()
                invariant
                    self.wf(),
                    k < self.keys@.len(),
                    i == self.keys@[k as int],
                    m <= self.succ@[i as int]@.len(),
                    forall|j: int| 0 <= j < r@.len() ==> self.is_rhs(#[trigger] r@[j]@),
                    forall|kk: int, mm: int|
                        0 <= kk < k && 0 <= mm < self.succ@[self.keys@[kk] as int]@.len() ==> views(r@).contains(
                            self.nodes@[#[trigger] self.succ@[self.keys@[kk] as int]@[mm] as int]@,
                        ),
                    forall|mm: int| 0 <= mm < m ==> views(r@).contains(self.nodes@[#[trigger] self.succ@[i as int]@[mm] as int]@),
                decreases self.succ@[i as int]@.len() - m,
            {
                let t = self.succ[i][m];
                let ghost r0 = r@;
                proof {
                    assert(self.keyed@[i as int]);
                    assert(self.succ@[i as int]@.contains(t));
                    assert(self.index@.contains_key(self.nodes@[t as int]@));
                    assert(self.graph@[self.nodes@[i as int]@].contains(self.nodes@[t as int]@));
                    assert(self@.contains_key(self.nodes@[i as int]@));
                }
                r.push(self.nodes[t].duplicate());
                proof {
                    assert(views(r@) =~= views(r0).push(self.nodes@[t as int]@));
                    assert forall|x: T::V| views(r0).contains(x) implies views(r@).contains(x) by {
                        let j = choose|j: int| 0 <= j < views(r0).len() && views(r0)[j] == x;
                        assert(views(r@)[j] == x);
                    }
                    assert(views(r@)[r0.len() as int] == self.nodes@[t as int]@);
                    assert forall|j: int| 0 <= j < r@.len() implies self.is_rhs(#[trigger] r@[j]@) by {
                        if j < r0.len() {
                            assert(r@[j] == r0[j]);
                        }
                    }
                }
                m = m + 1;
            }
            k = k + 1;
        }
        proof {
            assert forall|v: T::V| #[trigger] views(r@).contains(v) <==> self.is_rhs(v) by {
                if views(r@).contains(v) {
                    let j = choose|j: int| 0 <= j < views(r@).len() && views(r@)[j] == v;
                    assert(self.is_rhs(r@[j]@));
                }
                if self.is_rhs(v) {
                    let a = choose|a: T::V| #[trigger] self@.contains_key(a) && self@[a].contains(v);
                    let i = self.index@[a] as int;
                    assert(self.index@.contains_key(self.nodes@[i]@));
                    assert(self.keyed@[i]);
                    assert(self.graph@[self.nodes@[i]@].contains(v));
                    assert(self.keys@.contains(i as usize));
                    let kk = choose|kk: int| 0 <= kk < self.keys@.len() && self.keys@[kk] == i as usize;
                    let t = self.index@[v];
                    assert(self.succ@[i]@.contains(t));
                    let m = choose|m: int| 0 <= m < self.succ@[i]@.len() && self.succ@[i]@[m] == t;
                    assert(self.succ@[self.keys@[kk] as int]@[m] == t);
                    assert(self.nodes@[t as int]@ == v);
                }
            }
        }
        r
    }

    /// The left-hand nodes that point to `to`, each once, in the order of
    /// `lhs_nodes`.
    pub fn inverse_lookup(&self, to: &T) -> (r: Vec<T>)
        requires
            self.wf(),
        ensures
            views(r@) == self.lhs_order().filter(self.points_to(to@)),
            views(r@).no_duplicates(),
            forall|a: T::V| #[trigger] views(r@).contains(a) <==> self@.contains_key(a) && self@[a].contains(to@),
    {
        let mut r: Vec<T> = Vec::new();
        let target = self.find(to);
        let ghost idx: Seq<usize> = Seq::empty();
        if let Some(b) = target {
            let mut k: usize = 0;
            proof {
                reveal(Seq::filter);
                assert(self.lhs_order().take(0).len() == 0);
                assert(views(r@) =~= self.lhs_order().take(0).filter(self.points_to(to@)));
            }
            while k < self.keys.len()
                invariant
                    self.wf(),
                    b < self.nodes@.len(),
                    self.index@.contains_key(to@),
                    self.index@[to@] == b,
                    k <= self.keys@.len(),
                    r@.len() == idx.len(),
                    forall|j: int| 0 <= j < idx.len() ==> (#[trigger] r@[j])@ == self.nodes@[idx[j] as int]@,
                    forall|j: int| 0 <= j < idx.len() ==> exists|m: int| 0 <= m < k && #[trigger] idx[j] == self.keys@[m],
                    forall|j: int| 0 <= j < idx.len() ==> (#[trigger] self.succ@[idx[j] as int]@).contains(b) && idx[j] < self.nodes@.len(),
                    forall|m: int| 0 <= m < k && (#[trigger] self.succ@[self.keys@[m] as int]@).contains(b) ==> idx.contains(self.keys@[m]),
                    idx.no_duplicates(),
                    forall|j: int, m: int| 0 <= j < idx.len() && k <= m < self.keys@.len() ==> #[trigger] idx[j] != #[trigger] self.keys@[m],
                    views(r@) == self.lhs_order().take(k as int).filter(self.points_to(to@)),
                decreases self.keys@.len() - k,
            {
                let i = self.keys[k];
                let ghost idx0 = idx;
                let ghost r0 = views(r@);
                proof {
                    let lo = self.lhs_order();
                    reveal(Seq::filter);
                    assert(lo.take(k as int + 1).drop_last() =~= lo.take(k as int));
                    assert(lo.take(k as int + 1).last() == self.nodes@[i as int]@);
                    assert(self.keyed@[i as int]);
                    assert(self.graph@[self.nodes@[i as int]@].contains(to@) <==> (self.index@.contains_key(to@) && self.succ@[i as int]@.contains(
                        self.index@[to@],
                    )));
                }
                if row_contains(&self.succ[i], b) {
                    let x = self.nodes[i].duplicate();
                    proof {
                        assert(views(r@.push(x)) =~= views(r@).push(x@));
                    }
                    r.push(x);
                    proof {
                        idx = idx.push(i);
                    }
                }
                proof {
                    assert forall|m: int| 0 <= m < k + 1 && (#[trigger] self.succ@[self.keys@[m] as int]@).contains(b) implies idx.contains(self.keys@[m]) by {
                        if m < k {
                            let j = choose|j: int| 0 <= j < idx0.len() && idx0[j] == self.keys@[m];
                            assert(idx[j] == self.keys@[m]);
                        } else {
                            assert(idx[idx.len() - 1] == self.keys@[m]);
                        }
                    }
                }
                k = k + 1;
            }
            proof {
                assert(self.lhs_order().take(self.keys@.len() as int) =~= self.lhs_order());
                let rv = views(r@);
                assert forall|x: int, y: int| 0 <= x < rv.len() && 0 <= y < rv.len() && x != y implies rv[x] != rv[y] by {
                    self.lemma_distinct(idx[x] as int, idx[y] as int);
                }
                assert forall|a: T::V| #[trigger] rv.contains(a) <==> self@.contains_key(a) && self@[a].contains(to@) by {
                    if rv.contains(a) {
                        let j = choose|j: int| 0 <= j < rv.len() && rv[j] == a;
                        let m = choose|m: int| 0 <= m < self.keys@.len() && idx[j] == self.keys@[m];
                        assert(self.keyed@[self.keys@[m] as int]);
                    }
                    if self@.contains_key(a) && self@[a].contains(to@) {
                        let i = self.index@[a] as int;
                        assert(self.index@.contains_key(self.nodes@[i]@));
                        assert(self.keyed@[i]);
                        assert(self.keys@.contains(i as usize));
                        let m = choose|m: int| 0 <= m < self.keys@.len() && self.keys@[m] == i as usize;
                        assert(self.succ@[self.keys@[m] as int]@.contains(b));
                        assert(idx.contains(i as usize));
                        let j = choose|j: int| 0 <= j < idx.len() && idx[j] == i as usize;
                        assert(rv[j] == a);
                    }
                }
            }
        } else {
            proof {
                let lo = self.lhs_order();
                assert forall|m: int| 0 <= m < lo.len() implies !self.points_to(to@)(#[trigger] lo[m]) by {
                    let i = self.keys@[m] as int;
                    assert(self.keyed@[i]);
                    assert(self.graph@[self.nodes@[i]@].contains(to@) ==> self.index@.contains_key(to@));
                }
                lo.lemma_all_neg_filter_empty(self.points_to(to@));
                assert(views(r@) =~= lo.filter(self.points_to(to@)));
                assert forall|a: T::V| #[trigger] views(r@).contains(a) <==> self@.contains_key(a) && self@[a].contains(to@) by {
                    if self@.contains_key(a) {
                        let i = self.index@[a] as int;
                        assert(self.index@.contains_key(self.nodes@[i]@));
                    }
                }
            }
        }
        r
    }

    /// The number of left-hand nodes.
    pub fn num_nodes(&self) -> (r: usize)
        requires
            self.wf(),
        ensures
            r == self@.dom().len(),
    {
        self.keys.len()
    }

    /// The number of edges.
    pub fn num_edges(&self) -> (r: usize)
        requires
            self.wf(),
        ensures
            r == edge_set(self@).len(),
    {
        self.edge_list.len()
    }

    spec fn ipath(&self, p: Seq<usize>) -> bool {
        &&& p.len() >= 1
        &&& forall|k: int| 0 <= k < p.len() ==> #[trigger] p[k] < self.nodes@.len()
        &&& forall|k: int| 0 <= k < p.len() - 1 ==> (#[trigger] self.succ@[p[k] as int]@).contains(p[k + 1])
    }

    spec fn simple_entry(visited: Seq<bool>, e: (usize, Vec<usize>)) -> bool {
        &&& e.1@.no_duplicates()
        &&& forall|k: int| 0 <= k < e.1@.len() - 1 ==> #[trigger] visited[e.1@[k] as int]
    }

    spec fn entry_ok(&self, s: usize, e: (usize, Vec<usize>)) -> bool {
        &&& e.0 < self.nodes@.len()
        &&& self.ipath(e.1@)
        &&& e.1@[0] == s
        &&& e.1@.last() == e.0
    }

    proof fn lemma_closed(&self, visited: Seq<bool>, p: Seq<usize>, k: int)
        requires
            self.wf(),
            visited.len() == self.nodes@.len(),
            self.ipath(p),
            visited[p[0] as int],
            forall|u: int, v: usize|
                0 <= u < self.nodes@.len() && #[trigger] visited[u] && #[trigger] self.succ@[u]@.contains(v) ==> visited[v as int],
            0 <= k < p.len(),
        ensures
            visited[p[k] as int],
        decreases k,
    {
        if k > 0 {
            self.lemma_closed(visited, p, k - 1);
            assert(self.succ@[p[k - 1] as int]@.contains(p[k]));
        }
    }

    /// Depth-first search from index `s` for an index marked in `target`.
    fn search(&self, s: usize, target: &Vec<bool>) -> (r: Option<Vec<usize>>)
        requires
            self.wf(),
            s < self.nodes@.len(),
            target@.len() == self.nodes@.len(),
        ensures
            match r {
                Some(p) => self.ipath(p@) && p@[0] == s && target@[p@.last() as int] && p@.no_duplicates()
                    && forall|k: int| 0 <= k < p@.len() - 1 ==> !target@[#[trigger] p@[k] as int],
                None => forall|p: Seq<usize>| self.ipath(p) && p[0] == s ==> !target@[p.last() as int],
            },
    {
        let n = self.nodes.len();
        let mut visited = all_false(n);
        let mut first: Vec<usize> = Vec::new();
        first.push(s);
        let mut stack: Vec<(usize, Vec<usize>)> = Vec::new();
        stack.push((s, first));
        assert(stack@[0].0 == s);
        assert(self.entry_ok(s, stack@[0]));
        assert(Self::simple_entry(visited@, stack@[0]));
        while stack.len() > 0
            invariant
                self.wf(),
                n == self.nodes@.len(),
                s < n,
                target@.len() == n,
                visited@.len() == n,
                forall|k: int| 0 <= k < stack@.len() ==> self.entry_ok(s, #[trigger] stack@[k]),
                forall|k: int| 0 <= k < stack@.len() ==> Self::simple_entry(visited@, #[trigger] stack@[k]),
                visited@[s as int] || on_stack(stack@, s),
                forall|u: int| 0 <= u < n && #[trigger] visited@[u] ==> !target@[u],
                forall|u: int, v: usize|
                    0 <= u < n && #[trigger] visited@[u] && #[trigger] self.succ@[u]@.contains(v) ==> visited@[v as int]
                        || on_stack(stack@, v),
            decreases count_false(visited@), stack@.len(),
        {
            let ghost st0 = stack@;
            let (node, path) = stack.pop().unwrap();
            proof {
                assert(st0[st0.len() - 1] == (node, path));
                assert(self.entry_ok(s, st0[st0.len() - 1]));
                assert forall|k: int| 0 <= k < stack@.len() implies self.entry_ok(s, #[trigger] stack@[k]) && Self::simple_entry(visited@, stack@[k]) by {
                    assert(stack@[k] == st0[k]);
                }
                assert(Self::simple_entry(visited@, st0[st0.len() - 1]));
            }
            if visited[node] {
                proof {
                    assert(visited@[s as int] || on_stack(stack@, s)) by {
                        if !visited@[s as int] {
                            let k = choose|k: int| 0 <= k < st0.len() && (#[trigger] st0[k]).0 == s;
                            assert(k < stack@.len());
                            assert(stack@[k] == st0[k]);
                        }
                    }
                    assert forall|u: int, v: usize|
                        0 <= u < n && #[trigger] visited@[u] && #[trigger] self.succ@[u]@.contains(v) implies visited@[v as int]
                            || on_stack(stack@, v) by {
                        if !visited@[v as int] {
                            let k = choose|k: int| 0 <= k < st0.len() && (#[trigger] st0[k]).0 == v;
                            assert(k < stack@.len());
                            assert(stack@[k] == st0[k]);
                        }
                    }
                }
                continue;
            }
            let ghost vis0 = visited@;
            visited.set(node, true);
            proof {
                lemma_count_false_set(vis0, node as int);
                assert forall|k: int| 0 <= k < stack@.len() implies Self::simple_entry(visited@, #[trigger] stack@[k]) by {
                    assert(Self::simple_entry(vis0, stack@[k]));
                    assert forall|m: int| 0 <= m < stack@[k].1@.len() - 1 implies #[trigger] visited@[stack@[k].1@[m] as int] by {
                        assert(vis0[stack@[k].1@[m] as int]);
                    }
                }
                assert forall|m: int| 0 <= m < path@.len() implies #[trigger] visited@[path@[m] as int] by {
                    if m < path@.len() - 1 {
                        assert(vis0[path@[m] as int]);
                    }
                }
            }
            if target[node] {
                proof {
                    assert forall|m: int| 0 <= m < path@.len() - 1 implies !target@[#[trigger] path@[m] as int] by {
                        assert(vis0[path@[m] as int]);
                    }
                }
                return Some(path);
            }
            let ghost base = stack@;
            let mut k: usize = 0;
            while k < self.succ[node].len()
                invariant
                    self.wf(),
                    n == self.nodes@.len(),
                    node < n,
                    self.entry_ok(s, (node, path)),
                    k <= self.succ@[node as int]@.len(),
                    stack@.len() >= base.len(),
                    forall|j: int| 0 <= j < base.len() ==> #[trigger] stack@[j] == base[j],
                    forall|j: int| 0 <= j < stack@.len() ==> self.entry_ok(s, #[trigger] stack@[j]),
                    forall|j: int| 0 <= j < stack@.len() ==> Self::simple_entry(visited@, #[trigger] stack@[j]),
                    path@.no_duplicates(),
                    forall|m: int| 0 <= m < path@.len() ==> #[trigger] visited@[path@[m] as int],
                    visited@.len() == n,
                    forall|j: int| 0 <= j < k ==> visited@[self.succ@[node as int]@[j] as int] || on_stack(stack@, #[trigger] self.succ@[node as int]@[j]),
                decreases self.succ@[node as int]@.len() - k,
            {
                let v = self.succ[node][k];
                if visited[v] {
                    proof {
                        assert forall|j: int| 0 <= j < k + 1 implies visited@[self.succ@[node as int]@[j] as int] || on_stack(stack@, #[trigger] self.succ@[node as int]@[j]) by {}
                    }
                    k = k + 1;
                    continue;
                }
                let mut p2 = copy_indices(&path);
                p2.push(v);
                proof {
                    assert(self.succ@[node as int]@.contains(v));
                    assert(v < n);
                    assert forall|j: int| 0 <= j < p2@.len() - 1 implies (#[trigger] self.succ@[p2@[j] as int]@).contains(p2@[j + 1]) by {
                        if j < path@.len() - 1 {
                            assert(p2@[j] == path@[j]);
                            assert(p2@[j + 1] == path@[j + 1]);
                        } else {
                            assert(p2@[j] == node);
                        }
                    }
                    assert forall|j: int| 0 <= j < p2@.len() implies #[trigger] p2@[j] < n by {
                        if j < path@.len() {
                            assert(p2@[j] == path@[j]);
                        }
                    }
                }
                proof {
                    assert forall|a: int, b: int| 0 <= a < b < p2@.len() implies p2@[a] != p2@[b] by {
                        if b < path@.len() {
                            assert(p2@[a] == path@[a] && p2@[b] == path@[b]);
                        } else {
                            assert(p2@[a] == path@[a]);
                            assert(visited@[path@[a] as int]);
                        }
                    }
                    assert forall|m: int| 0 <= m < p2@.len() - 1 implies #[trigger] visited@[p2@[m] as int] by {
                        assert(p2@[m] == path@[m]);
                    }
                }
                let ghost st1 = stack@;
                stack.push((v, p2));
                proof {
                    assert(stack@[st1.len() as int].0 == v);
                    assert forall|j: int| 0 <= j < k + 1 implies visited@[self.succ@[node as int]@[j] as int] || on_stack(stack@, #[trigger] self.succ@[node as int]@[j]) by {
                        if j < k && !visited@[self.succ@[node as int]@[j] as int] {
                            let k2 = choose|k2: int| 0 <= k2 < st1.len() && (#[trigger] st1[k2]).0 == self.succ@[node as int]@[j];
                            assert(stack@[k2] == st1[k2]);
                        }
                    }
                }
                k = k + 1;
            }
            proof {
                assert(visited@[s as int] || on_stack(stack@, s)) by {
                    if !visited@[s as int] {
                        let k2 = choose|k2: int| 0 <= k2 < st0.len() && (#[trigger] st0[k2]).0 == s;
                        assert(k2 < base.len());
                        assert(stack@[k2] == base[k2]);
                    }
                }
                assert forall|u: int, v: usize|
                    0 <= u < n && #[trigger] visited@[u] && #[trigger] self.succ@[u]@.contains(v) implies visited@[v as int]
                        || on_stack(stack@, v) by {
                    if u == node as int {
                        let j = choose|j: int| 0 <= j < self.succ@[u]@.len() && self.succ@[u]@[j] == v;
                        assert(visited@[self.succ@[node as int]@[j] as int] || on_stack(stack@, self.succ@[node as int]@[j]));
                    } else if !visited@[v as int] {
                        assert(vis0[u]);
                        let k2 = choose|k2: int| 0 <= k2 < st0.len() && (#[trigger] st0[k2]).0 == v;
                        assert(k2 < base.len());
                        assert(stack@[k2] == base[k2]);
                    }
                }
            }
        }
        proof {
            assert forall|p: Seq<usize>| self.ipath(p) && p[0] == s implies !target@[p.last() as int] by {
                self.lemma_closed(visited@, p, p.len() - 1);
            }
        }
        None
    }

    /// Copies of the stored nodes along an index path.
    fn materialize(&self, p: &Vec<usize>) -> (r: Vec<T>)
        requires
            self.wf(),
            forall|k: int| 0 <= k < p@.len() ==> #[trigger] p@[k] < self.nodes@.len(),
        ensures
            r@.len() == p@.len(),
            forall|k: int| 0 <= k < p@.len() ==> (#[trigger] r@[k])@ == self.nodes@[p@[k] as int]@,
    {
        let mut r: Vec<T> = Vec::new();
        let mut k: usize = 0;
        while k < p.len()
            invariant
                self.wf(),
                forall|j: int| 0 <= j < p@.len() ==> #[trigger] p@[j] < self.nodes@.len(),
                k <= p@.len(),
                r@.len() == k,
                forall|j: int| 0 <= j < k ==> (#[trigger] r@[j])@ == self.nodes@[p@[j] as int]@,
            decreases p@.len() - k,
        {
            r.push(self.nodes[p[k]].duplicate());
            k = k + 1;
        }
        r
    }

    proof fn lemma_ipath_walk(&self, p: Seq<usize>, w: Seq<T::V>)
        requires
            self.wf(),
            self.ipath(p),
            w.len() == p.len(),
            forall|k: int| 0 <= k < p.len() ==> #[trigger] w[k] == self.nodes@[p[k] as int]@,
        ensures
            is_walk(self@, w),
    {
        assert forall|k: int| 0 <= k < w.len() - 1 implies #[trigger] self@.contains_key(w[k]) && self@[w[k]].contains(w[k + 1]) by {
            let i = p[k] as int;
            assert(self.succ@[i]@.contains(p[k + 1]));
            assert(self.keyed@[i]);
            assert(p[k + 1] < self.nodes@.len());
            assert(self.index@.contains_key(self.nodes@[p[k + 1] as int]@));
            assert(w[k] == self.nodes@[i]@);
            assert(w[k + 1] == self.nodes@[p[k + 1] as int]@);
        }
    }

    proof fn lemma_walk_ipath(&self, w: Seq<T::V>) -> (q: Seq<usize>)
        requires
            self.wf(),
            is_walk(self@, w),
            self.index@.contains_key(w[0]),
        ensures
            self.ipath(q),
            q.len() == w.len(),
            forall|k: int| 0 <= k < w.len() ==> #[trigger] self.nodes@[q[k] as int]@ == w[k],
            forall|k: int| 0 <= k < w.len() ==> #[trigger] self.index@.contains_key(w[k]) && q[k] == self.index@[w[k]],
    {
        assert forall|k: int| 0 <= k < w.len() implies #[trigger] self.index@.contains_key(w[k]) by {
            if k > 0 {
                assert(self@.contains_key(w[k - 1]) && self@[w[k - 1]].contains(w[(k - 1) + 1]));
                let i = self.index@[w[k - 1]] as int;
                assert(self.keyed@[i]);
            }
        }
        let q = Seq::new(w.len(), |k: int| self.index@[w[k]]);
        assert forall|k: int| 0 <= k < q.len() - 1 implies (#[trigger] self.succ@[q[k] as int]@).contains(q[k + 1]) by {
            assert(self.index@.contains_key(w[k]));
            assert(self.index@.contains_key(w[k + 1]));
            assert(self@.contains_key(w[k]) && self@[w[k]].contains(w[k + 1]));
            let i = self.index@[w[k]] as int;
            assert(self.keyed@[i]);
        }
        assert forall|k: int| 0 <= k < q.len() implies #[trigger] q[k] < self.nodes@.len() by {
            assert(self.index@.contains_key(w[k]));
        }
        assert forall|k: int| 0 <= k < w.len() implies #[trigger] self.nodes@[q[k] as int]@ == w[k] by {
            assert(self.index@.contains_key(w[k]));
        }
        q
    }

    proof fn lemma_trivial_walks(&self, from: T::V, w: Seq<T::V>)
        requires
            self.wf(),
            !self.index@.contains_key(from),
            is_walk(self@, w),
            w[0] == from,
        ensures
            w.len() == 1,
    {
        if w.len() > 1 {
            assert(self@.contains_key(w[0]));
        }
    }

    /// Find *any* path from `from` to `to`: `Some` exactly when `to` is reachable
    /// from `from`. No guarantee is given about which path is returned.
    pub fn any_path(&self, from: &T, to: &T) -> (r: Option<Path<T>>)
        requires
            self.wf(),
        ensures
            r.is_some() == reaches(self@, from@, to@),
            r matches Some(p) ==> is_walk(self@, p@) && p@[0] == from@ && p@.last() == to@,
    {
        match self.find(from) {
            None => {
                if from.same(to) {
                    let mut v: Vec<T> = Vec::new();
                    v.push(from.duplicate());
                    let p = Path(v);
                    proof {
                        assert(p@.len() == 1);
                        assert(p@[0] == from@);
                        assert(is_walk(self@, p@));
                        assert(p@.last() == to@);
                        assert(reaches(self@, from@, to@));
                    }
                    Some(p)
                } else {
                    proof {
                        assert forall|w: Seq<T::V>| is_walk(self@, w) && w[0] == from@ implies w.last() != to@ by {
                            self.lemma_trivial_walks(from@, w);
                        }
                    }
                    None
                }
            },
            Some(a) => {
                let mut target = all_false(self.nodes.len());
                let goal = self.find(to);
                if let Some(b) = goal {
                    target.set(b, true);
                }
                match self.search(a, &target) {
                    Some(ip) => {
                        let v = self.materialize(&ip);
                        let p = Path(v);
                        proof {
                            self.lemma_ipath_walk(ip@, p@);
                            let b = goal->0;
                            assert(ip@.last() == b);
                            assert(p@[0] == from@);
                            assert(p@.last() == to@);
                            assert(reaches(self@, from@, to@));
                        }
                        Some(p)
                    },
                    None => {
                        proof {
                            assert forall|w: Seq<T::V>| is_walk(self@, w) && w[0] == from@ implies w.last() != to@ by {
                                let q = self.lemma_walk_ipath(w);
                                if w.last() == to@ {
                                    assert(self.index@.contains_key(w[w.len() - 1]));
                                    assert(target@[q.last() as int]);
                                }
                            }
                        }
                        None
                    },
                }
            },
        }
    }

    /// Find a path from `from` to any node that fulfils `pred`: `Some` exactly when
    /// such a node is reachable from `from`.
    pub fn reachable_predicate<F: Fn(&T) -> bool>(&self, from: &T, pred: F) -> (r: Option<Path<T>>)
        requires
            self.wf(),
            forall|t: &T| #[trigger] pred.requires((t,)),
            view_determined(pred),
        ensures
            r.is_some() == exists|v: T::V| reaches(self@, from@, v) && satisfies(pred, v),
            r matches Some(p) ==> is_walk(self@, p@) && p@[0] == from@ && satisfies(pred, p@.last()),
            r matches Some(p) ==> p@.no_duplicates(),
            r matches Some(p) ==> forall|k: int| 0 <= k < p@.len() - 1 ==> pred.ensures((&self.stored(#[trigger] p@[k]),), false),
            r is None ==> pred.ensures((from,), false),
            r is None ==> forall|v: T::V|
                #![trigger reaches(self@, from@, v)]
                reaches(self@, from@, v) && v != from@ ==> self.has_node(v) && pred.ensures((&self.stored(v),), false),
    {
        match self.find(from) {
            None => {
                if pred(from) {
                    let mut v: Vec<T> = Vec::new();
                    v.push(from.duplicate());
                    let p = Path(v);
                    proof {
                        assert(p@.len() == 1);
                        assert(p@[0] == from@);
                        assert(is_walk(self@, p@));
                        assert(p@.last() == from@);
                        assert(reaches(self@, from@, from@));
                        assert(pred.ensures((from,), true));
                        assert(satisfies(pred, from@));
                    }
                    Some(p)
                } else {
                    proof {
                        assert forall|v: T::V| reaches(self@, from@, v) && v != from@ implies self.has_node(v) && pred.ensures((&self.stored(v),), false) by {
                            let w = choose|w: Seq<T::V>| is_walk(self@, w) && w[0] == from@ && w.last() == v;
                            self.lemma_trivial_walks(from@, w);
                        }
                        assert forall|v: T::V| reaches(self@, from@, v) implies !satisfies(pred, v) by {
                            let w = choose|w: Seq<T::V>| is_walk(self@, w) && w[0] == from@ && w.last() == v;
                            self.lemma_trivial_walks(from@, w);
                            if satisfies(pred, v) {
                                let t = choose|t: T| #[trigger] pred.ensures((&t,), true) && t@ == v;
                                assert(pred.ensures((from,), false));
                            }
                        }
                    }
                    None
                }
            },
            Some(a) => {
                let mut target: Vec<bool> = Vec::new();
                let mut i: usize = 0;
                while i < self.nodes.len()
                    invariant
                        self.wf(),
                        forall|t: &T| #[trigger] pred.requires((t,)),
                        i <= self.nodes@.len(),
                        target@.len() == i,
                        forall|j: int| 0 <= j < i ==> pred.ensures((&self.nodes@[j],), #[trigger] target@[j]),
                    decreases self.nodes@.len() - i,
                {
                    let hit = pred(&self.nodes[i]);
                    target.push(hit);
                    i = i + 1;
                }
                match self.search(a, &target) {
                    Some(ip) => {
                        let v = self.materialize(&ip);
                        let p = Path(v);
                        proof {
                            self.lemma_ipath_walk(ip@, p@);
                            assert forall|k: int| 0 <= k < p@.len() - 1 implies pred.ensures((&self.stored(#[trigger] p@[k]),), false) by {
                                assert(self.index@.contains_key(self.nodes@[ip@[k] as int]@));
                                assert(self.stored(p@[k]) == self.nodes@[ip@[k] as int]);
                                assert(!target@[ip@[k] as int]);
                            }
                            assert forall|x: int, y: int| 0 <= x < y < p@.len() implies p@[x] != p@[y] by {
                                assert(self.index@.contains_key(self.nodes@[ip@[x] as int]@));
                                assert(self.index@.contains_key(self.nodes@[ip@[y] as int]@));
                                assert(ip@[x] != ip@[y]);
                            }
                            let last = ip@.last() as int;
                            assert(pred.ensures((&self.nodes@[last],), true));
                            assert(p@.last() == self.nodes@[last]@);
                            assert(satisfies(pred, p@.last()));
                            assert(reaches(self@, from@, p@.last()));
                        }
                        Some(p)
                    },
                    None => {
                        let here = pred(from);
                        proof {
                            let w0 = seq![self.nodes@[a as int]@];
                            assert(is_walk(self@, w0));
                            assert(self.index@.contains_key(self.nodes@[a as int]@));
                            assert(self.ipath(seq![a]));
                            assert(seq![a][0] == a);
                            assert(seq![a].last() == a);
                            assert(!target@[a as int]);
                            assert(pred.ensures((&self.nodes@[a as int],), false));
                            assert(!here);
                            assert forall|v: T::V| reaches(self@, from@, v) && v != from@ implies self.has_node(v) && pred.ensures((&self.stored(v),), false) by {
                                let w = choose|w: Seq<T::V>| is_walk(self@, w) && w[0] == from@ && w.last() == v;
                                let q = self.lemma_walk_ipath(w);
                                let last = q.last() as int;
                                assert(!target@[last]);
                                assert(w.len() > 1);
                                let k = q.len() - 2;
                                let u = q[k] as int;
                                assert(self.succ@[u]@.contains(q[k + 1]));
                                assert(self.keyed@[u]);
                                assert(self.index@.contains_key(self.nodes@[u]@));
                                assert(self.nodes@[q[k + 1] as int]@ == w[k + 1]);
                                assert(w[k + 1] == v);
                                assert(self.index@.contains_key(v));
                                assert(self@[self.nodes@[u]@].contains(v));
                                assert(self.index@[v] == q.last());
                            }
                            assert forall|v: T::V| reaches(self@, from@, v) implies !satisfies(pred, v) by {
                                let w = choose|w: Seq<T::V>| is_walk(self@, w) && w[0] == from@ && w.last() == v;
                                let q = self.lemma_walk_ipath(w);
                                let last = q.last() as int;
                                assert(!target@[last]);
                                assert(pred.ensures((&self.nodes@[last],), false));
                                assert(self.nodes@[last]@ == v);
                                if satisfies(pred, v) {
                                    let t = choose|t: T| #[trigger] pred.ensures((&t,), true) && t@ == v;
                                }
                            }
                        }
                        None
                    },
                }
            },
        }
    }

    /// The subgraph of the nodes that fulfil `pred`, with the edges between them.
    pub fn sub<F: Fn(&T) -> bool>(&self, pred: F) -> (r: Self)
        requires
            self.wf(),
            forall|t: &T| #[trigger] pred.requires((t,)),
            view_determined(pred),
        ensures
            r.wf(),
            forall|a: T::V| #[trigger] r@.contains_key(a) <==> self@.contains_key(a) && satisfies(pred, a),
            forall|a: T::V, b: T::V|
                #[trigger] r@.contains_key(a) ==> (#[trigger] r@[a].contains(b) <==> self@[a].contains(b) && satisfies(pred, b)),
            forall|a: T::V| self@.contains_key(a) && !r@.contains_key(a) ==> pred.ensures((&self.stored(a),), false),
            forall|a: T::V, b: T::V|
                r@.contains_key(a) && self@[a].contains(b) && !r@[a].contains(b) ==> pred.ensures((&self.stored(b),), false),
    {
        let n = self.nodes.len();
        let mut keep: Vec<bool> = Vec::new();
        let mut i: usize = 0;
        while i < n
            invariant
                self.wf(),
                n == self.nodes@.len(),
                forall|t: &T| #[trigger] pred.requires((t,)),
                i <= n,
                keep@.len() == i,
                forall|j: int| 0 <= j < i ==> pred.ensures((&self.nodes@[j],), #[trigger] keep@[j]),
            decreases n - i,
        {
            let hit = pred(&self.nodes[i]);
            keep.push(hit);
            i = i + 1;
        }
        proof {
            assert forall|j: int| 0 <= j < n implies (#[trigger] keep@[j] <==> satisfies(pred, self.nodes@[j]@)) by {
                assert(pred.ensures((&self.nodes@[j],), keep@[j]));
                if satisfies(pred, self.nodes@[j]@) {
                    let t = choose|t: T| #[trigger] pred.ensures((&t,), true) && t@ == self.nodes@[j]@;
                }
            }
        }
        let mut r: Self = Dag::new();
        let mut i: usize = 0;
        while i < n
            invariant
                self.wf(),
                r.wf(),
                n == self.nodes@.len(),
                keep@.len() == n,
                forall|j: int| 0 <= j < n ==> (#[trigger] keep@[j] <==> satisfies(pred, self.nodes@[j]@)),
                i <= n,
                forall|a: T::V|
                    #[trigger] r@.contains_key(a) <==> (self.index@.contains_key(a) && self.index@[a] < i
                        && self.keyed@[self.index@[a] as int] && keep@[self.index@[a] as int]),
                forall|a: T::V, b: T::V|
                    #[trigger] r@.contains_key(a) ==> (#[trigger] r@[a].contains(b) <==> self@[a].contains(b)
                        && keep@[self.index@[b] as int]),
            decreases n - i,
        {
            if self.keyed[i] && keep[i] {
                let ghost ai = self.nodes@[i as int]@;
                let ghost r0 = r@;
                proof {
                    assert(self.index@.contains_key(ai));
                }
                r.add_node(self.nodes[i].duplicate());
                let mut k: usize = 0;
                while k < self.succ[i].len()
                    invariant
                        self.wf(),
                        r.wf(),
                        n == self.nodes@.len(),
                        keep@.len() == n,
                        i < n,
                        self.keyed@[i as int],
                        ai == self.nodes@[i as int]@,
                        self.index@.contains_key(ai),
                        self.index@[ai] == i,
                        k <= self.succ@[i as int]@.len(),
                        r@.contains_key(ai),
                        r@.dom() == r0.dom().insert(ai),
                        forall|a: T::V| a != ai && #[trigger] r@.contains_key(a) ==> r@[a] == r0[a],
                        forall|b: T::V|
                            #[trigger] r@[ai].contains(b) <==> (self.index@.contains_key(b) && keep@[self.index@[b] as int]
                                && self.succ@[i as int]@.take(k as int).contains(self.index@[b])),
                    decreases self.succ@[i as int]@.len() - k,
                {
                    let j = self.succ[i][k];
                    let ghost r1 = r@;
                    proof {
                        assert(self.succ@[i as int]@.contains(j));
                        assert(j < n);
                        assert(self.index@.contains_key(self.nodes@[j as int]@));
                    }
                    if keep[j] {
                        r.add_edge(self.nodes[i].duplicate(), self.nodes[j].duplicate());
                    }
                    proof {
                        let bj = self.nodes@[j as int]@;
                        assert(self.succ@[i as int]@.take(k as int + 1) =~= self.succ@[i as int]@.take(k as int).push(j));
                        assert forall|b: T::V|
                            #[trigger] r@[ai].contains(b) <==> (self.index@.contains_key(b) && keep@[self.index@[b] as int]
                                && self.succ@[i as int]@.take(k as int + 1).contains(self.index@[b])) by {
                            if self.index@.contains_key(b) && self.index@[b] == j {
                                assert(self.nodes@[j as int]@ == b);
                            }
                            if b == bj {
                                assert(self.index@[b] == j);
                                assert(self.succ@[i as int]@.take(k as int + 1)[k as int] == j);
                            }
                            if self.index@.contains_key(b) && self.succ@[i as int]@.take(k as int).contains(self.index@[b]) {
                                let m = choose|m: int| 0 <= m < k && #[trigger] self.succ@[i as int]@.take(k as int)[m] == self.index@[b];
                                assert(self.succ@[i as int]@.take(k as int + 1)[m] == self.index@[b]);
                            }
                            if self.index@.contains_key(b) && self.succ@[i as int]@.take(k as int + 1).contains(self.index@[b]) {
                                let m = choose|m: int| 0 <= m < k + 1 && #[trigger] self.succ@[i as int]@.take(k as int + 1)[m] == self.index@[b];
                                if m < k {
                                    assert(self.succ@[i as int]@.take(k as int)[m] == self.index@[b]);
                                } else {
                                    assert(self.index@[b] == j);
                                    assert(b == bj);
                                }
                            }
                        }
                        assert(r@.dom() =~= r0.dom().insert(ai));
                    }
                    k = k + 1;
                }
                proof {
                    assert(self.succ@[i as int]@.take(self.succ@[i as int]@.len() as int) =~= self.succ@[i as int]@);
                    assert forall|a: T::V| #[trigger] r@.contains_key(a) <==> (self.index@.contains_key(a) && self.index@[a] < i + 1
                        && self.keyed@[self.index@[a] as int] && keep@[self.index@[a] as int]) by {
                        if a == ai {
                        } else {
                            assert(r@.contains_key(a) == r0.contains_key(a));
                            if self.index@.contains_key(a) && self.index@[a] == i {
                                assert(self.nodes@[i as int]@ == a);
                            }
                        }
                    }
                    assert forall|a: T::V, b: T::V|
                        #[trigger] r@.contains_key(a) implies (#[trigger] r@[a].contains(b) <==> self@[a].contains(b)
                            && keep@[self.index@[b] as int]) by {
                        if a == ai {
                            assert(self@[ai].contains(b) <==> (self.index@.contains_key(b) && self.succ@[i as int]@.contains(self.index@[b])));
                        } else {
                            assert(r0.contains_key(a));
                        }
                    }
                }
            } else {
                proof {
                    assert forall|a: T::V| #[trigger] r@.contains_key(a) <==> (self.index@.contains_key(a) && self.index@[a] < i + 1
                        && self.keyed@[self.index@[a] as int] && keep@[self.index@[a] as int]) by {
                        if self.index@.contains_key(a) && self.index@[a] == i {
                            assert(self.nodes@[i as int]@ == a);
                        }
                    }
                }
            }
            i = i + 1;
        }
        proof {
            assert forall|a: T::V| #[trigger] r@.contains_key(a) <==> self@.contains_key(a) && satisfies(pred, a) by {
                if self@.contains_key(a) {
                    let j = self.index@[a] as int;
                    assert(self.index@.contains_key(self.nodes@[j]@));
                    assert(self.keyed@[j]);
                }
                if r@.contains_key(a) {
                    let j = self.index@[a] as int;
                    assert(keep@[j] <==> satisfies(pred, self.nodes@[j]@));
                }
            }
            assert forall|a: T::V| self@.contains_key(a) && !r@.contains_key(a) implies pred.ensures((&self.stored(a),), false) by {
                let j = self.index@[a] as int;
                assert(self.index@.contains_key(self.nodes@[j]@));
                assert(self.keyed@[j]);
                assert(!keep@[j]);
                assert(pred.ensures((&self.nodes@[j],), keep@[j]));
            }
            assert forall|a: T::V, b: T::V|
                r@.contains_key(a) && self@[a].contains(b) && !r@[a].contains(b) implies pred.ensures((&self.stored(b),), false) by {
                let ia = self.index@[a] as int;
                assert(self.index@.contains_key(self.nodes@[ia]@));
                assert(self.keyed@[ia]);
                let jb = self.index@[b] as int;
                assert(!keep@[jb]);
                assert(pred.ensures((&self.nodes@[jb],), keep@[jb]));
            }
            assert forall|a: T::V, b: T::V|
                #[trigger] r@.contains_key(a) implies (#[trigger] r@[a].contains(b) <==> self@[a].contains(b) && satisfies(pred, b)) by {
                if self@[a].contains(b) {
                    let ia = self.index@[a] as int;
                    assert(self.index@.contains_key(self.nodes@[ia]@));
                    assert(self.keyed@[ia]);
                    assert(self.index@.contains_key(b));
                    let jb = self.index@[b] as int;
                    assert(keep@[jb] <==> satisfies(pred, self.nodes@[jb]@));
                }
            }
        }
        r
    }

    /// The graph of `from` and its direct successors only.
    pub fn dag_of(&self, from: T) -> (r: Self)
        requires
            self.wf(),
        ensures
            r.wf(),
            r@ == Map::<T::V, Set<T::V>>::empty().insert(
                from@,
                if self@.contains_key(from@) {
                    self@[from@]
                } else {
                    Set::empty()
                },
            ),
    {
        let found = self.find(&from);
        let mut r: Self = Dag::new();
        let ghost fv = from@;
        match found {
            Some(a) => {
                let from2 = self.nodes[a].duplicate();
                r.add_node(from);
                if self.keyed[a] {
                    let mut k: usize = 0;
                    while k < self.succ[a].len()
                        invariant
                            self.wf(),
                            r.wf(),
                            a < self.nodes@.len(),
                            self.keyed@[a as int],
                            self.nodes@[a as int]@ == fv,
                            from2@ == fv,
                            k <= self.succ@[a as int]@.len(),
                            r@.dom() == Set::empty().insert(fv),
                            forall|b: T::V|
                                #[trigger] r@[fv].contains(b) <==> (self.index@.contains_key(b)
                                    && self.succ@[a as int]@.take(k as int).contains(self.index@[b])),
                        decreases self.succ@[a as int]@.len() - k,
                    {
                        let j = self.succ[a][k];
                        proof {
                            assert(self.succ@[a as int]@.contains(j));
                            assert(self.index@.contains_key(self.nodes@[j as int]@));
                        }
                        r.add_edge(from2.duplicate(), self.nodes[j].duplicate());
                        proof {
                            let bj = self.nodes@[j as int]@;
                            let t0 = self.succ@[a as int]@.take(k as int);
                            let t1 = self.succ@[a as int]@.take(k as int + 1);
                            assert(t1 =~= t0.push(j));
                            assert forall|b: T::V| #[trigger] r@[fv].contains(b) <==> (self.index@.contains_key(b)
                                && t1.contains(self.index@[b])) by {
                                if b == bj {
                                    assert(t1[k as int] == j);
                                }
                                if self.index@.contains_key(b) && t0.contains(self.index@[b]) {
                                    let m = choose|m: int| 0 <= m < k && t0[m] == self.index@[b];
                                    assert(t1[m] == self.index@[b]);
                                }
                                if self.index@.contains_key(b) && t1.contains(self.index@[b]) {
                                    let m = choose|m: int| 0 <= m < k + 1 && t1[m] == self.index@[b];
                                    if m < k {
                                        assert(t0[m] == self.index@[b]);
                                    } else {
                                        assert(self.nodes@[j as int]@ == b);
                                    }
                                }
                            }
                            assert(r@.dom() =~= Set::empty().insert(fv));
                        }
                        k = k + 1;
                    }
                    proof {
                        assert(self.succ@[a as int]@.take(self.succ@[a as int]@.len() as int) =~= self.succ@[a as int]@);
                        assert(self.index@.contains_key(self.nodes@[a as int]@));
                        assert(r@[fv] =~= self@[fv]);
                        assert(r@ =~= Map::<T::V, Set<T::V>>::empty().insert(fv, self@[fv]));
                    }
                } else {
                    proof {
                        assert(self.index@.contains_key(self.nodes@[a as int]@));
                    }
                }
            },
            None => {
                r.add_node(from);
                proof {
                    assert(!self@.contains_key(fv));
                }
            },
        }
        r
    }

    /// The nodes that `from` points to, each once.
    pub fn successors(&self, from: &T) -> (r: Vec<T>)
        requires
            self.wf(),
        ensures
            views(r@).no_duplicates(),
            forall|b: T::V| #[trigger] views(r@).contains(b) <==> self@.contains_key(from@) && self@[from@].contains(b),
    {
        match self.find(from) {
            None => {
                let r: Vec<T> = Vec::new();
                proof {
                    assert(views(r@) =~= Seq::<T::V>::empty());
                }
                r
            },
            Some(a) => {
                let v = self.materialize(&self.succ[a]);
                proof {
                    assert(self.index@.contains_key(self.nodes@[a as int]@));
                    let rv = views(v@);
                    assert forall|x: int, y: int| 0 <= x < rv.len() && 0 <= y < rv.len() && x != y implies rv[x] != rv[y] by {
                        assert(self.succ@[a as int]@[x] != self.succ@[a as int]@[y]);
                        self.lemma_distinct(self.succ@[a as int]@[x] as int, self.succ@[a as int]@[y] as int);
                    }
                    assert forall|b: T::V| #[trigger] rv.contains(b) <==> self@.contains_key(from@) && self@[from@].contains(b) by {
                        if rv.contains(b) {
                            let x = choose|x: int| 0 <= x < rv.len() && rv[x] == b;
                            let j = self.succ@[a as int]@[x];
                            assert(self.keyed@[a as int]);
                            assert(self.index@.contains_key(self.nodes@[j as int]@));
                            assert(self.succ@[a as int]@.contains(j));
                        }
                        if self@.contains_key(from@) && self@[from@].contains(b) {
                            assert(self.keyed@[a as int]);
                            let j = self.index@[b];
                            assert(self.succ@[a as int]@.contains(j));
                            let x = choose|x: int| 0 <= x < self.succ@[a as int]@.len() && self.succ@[a as int]@[x] == j;
                            assert(rv[x] == b);
                        }
                    }
                }
                v
            },
        }
    }
}

} // verus!
