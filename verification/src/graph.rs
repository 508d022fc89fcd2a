//! The dependency graph over AUR source bases.
//!
//! Nodes are `pkgbase` names, inserted once each; an edge `A -> B`
//! says that A depends on B, so B must build first. The topological
//! order returned puts every dependency before its dependents; a
//! cyclic graph is reported with a name on the cycle.
//!
//! The graph itself is kept in `petgraph`, whose container and
//! topological sort are relied upon through the contracts below.

use vstd::prelude::*;
use vstd::string::*;
use crate::text::{str_chars, chars_eq};

verus! {

#[verifier::external_type_specification]
#[verifier::external_body]
#[verifier::reject_recursive_types(N)]
#[verifier::reject_recursive_types(E)]
#[verifier::reject_recursive_types(Ty)]
#[verifier::reject_recursive_types(Ix)]
pub struct ExGraph<N, E, Ty, Ix>(petgraph::graph::Graph<N, E, Ty, Ix>);

#[verifier::external_type_specification]
#[verifier::external_body]
pub struct ExDirected(petgraph::Directed);

/// How many nodes the graph holds. Node indices are `0..` in insertion
/// order and stable, since nothing here removes nodes.
pub uninterp spec fn graph_nodes(g: petgraph::graph::Graph<(), (), petgraph::Directed, usize>) -> nat;

/// The directed edges the graph holds, as index pairs.
pub uninterp spec fn graph_edges(g: petgraph::graph::Graph<(), (), petgraph::Directed, usize>) -> Set<(int, int)>;

/// Relies on `petgraph::graph::Graph::with_capacity`: a new graph holds
/// no nodes and no edges.
#[verifier::external_body]
fn graph_new() -> (g: petgraph::graph::Graph<(), (), petgraph::Directed, usize>)
    ensures
        graph_nodes(g) == 0,
        graph_edges(g) == Set::<(int, int)>::empty(),
{
    petgraph::graph::Graph::with_capacity(0, 0)
}

/// Relies on `petgraph::graph::Graph::add_node`: the new node gets the
/// next index (the count so far), and edges are untouched. With `usize`
/// indices no limit is reached.
#[verifier::external_body]
fn graph_add_node(g: &mut petgraph::graph::Graph<(), (), petgraph::Directed, usize>) -> (ix: usize)
    ensures
        graph_nodes(*final(g)) == graph_nodes(*old(g)) + 1,
        ix == graph_nodes(*old(g)),
        graph_edges(*final(g)) == graph_edges(*old(g)),
{
    g.add_node(()).index()
}

/// Relies on `petgraph::graph::Graph::add_edge`: it adds exactly the
/// edge `a -> b` and touches no node. It panics on an index out of
/// bounds, which the bound here rules out.
#[verifier::external_body]
fn graph_add_edge(
    g: &mut petgraph::graph::Graph<(), (), petgraph::Directed, usize>,
    a: usize,
    b: usize,
)
    requires
        a < graph_nodes(*old(g)),
        b < graph_nodes(*old(g)),
    ensures
        graph_nodes(*final(g)) == graph_nodes(*old(g)),
        graph_edges(*final(g)) == graph_edges(*old(g)).insert((a as int, b as int)),
{
    let ai = petgraph::graph::NodeIndex::new(a);
    let bi = petgraph::graph::NodeIndex::new(b);
    g.add_edge(ai, bi, ());
}

/// Relies on `petgraph::graph::Graph::node_count`.
#[verifier::external_body]
fn graph_node_count(g: &petgraph::graph::Graph<(), (), petgraph::Directed, usize>) -> (n: usize)
    ensures
        n == graph_nodes(*g),
{
    g.node_count()
}

/// A closed walk along edges: at least one step, ending where it began.
pub open spec fn is_cycle_path(edges: Set<(int, int)>, p: Seq<int>) -> bool {
    p.len() >= 2 && p[0] == p[p.len() - 1] && forall|i: int|
        0 <= i < p.len() - 1 ==> #[trigger] edges.contains((p[i], p[i + 1]))
}

pub open spec fn has_cycle(edges: Set<(int, int)>) -> bool {
    exists|p: Seq<int>| is_cycle_path(edges, p)
}

/// The node `v` lies on some cycle.
pub open spec fn on_cycle(edges: Set<(int, int)>, v: int) -> bool {
    exists|p: Seq<int>| is_cycle_path(edges, p) && p[0] == v
}

pub proof fn lemma_on_cycle_has_cycle(edges: Set<(int, int)>, v: int)
    requires
        on_cycle(edges, v),
    ensures
        has_cycle(edges),
{
    let p = choose|p: Seq<int>| is_cycle_path(edges, p) && p[0] == v;
    assert(is_cycle_path(edges, p));
}

/// Relies on `petgraph::algo::toposort`: it succeeds exactly on
/// acyclic graphs; then it returns every node exactly once, each node
/// ordered before its successors. On a cyclic graph it returns a node
/// that participates in a cycle (`Cycle::node_id`).
#[verifier::external_body]
fn graph_toposort(g: &petgraph::graph::Graph<(), (), petgraph::Directed, usize>) -> (r: Result<
    Vec<usize>,
    usize,
>)
    ensures
        match r {
            Ok(v) => {
                &&& v@.len() == graph_nodes(*g)
                &&& forall|i: int| 0 <= i < v@.len() ==> v@[i] < graph_nodes(*g)
                &&& forall|i: int, j: int|
                    0 <= i < v@.len() && 0 <= j < v@.len() && i != j ==> v@[i] != v@[j]
                &&& forall|i: int, j: int|
                    0 <= i < v@.len() && 0 <= j < v@.len() && graph_edges(*g).contains(
                        (v@[i] as int, v@[j] as int),
                    ) ==> i < j
                &&& forall|x: usize| x < graph_nodes(*g) ==> v@.contains(x)
                &&& !has_cycle(graph_edges(*g))
            },
            Err(c) => c < graph_nodes(*g) && on_cycle(graph_edges(*g), c as int),
        },
{
    match petgraph::algo::toposort(g, None) {
        Ok(v) => Ok(v.into_iter().map(|ix| ix.index()).collect()),
        Err(c) => Err(c.node_id().index()),
    }
}

/// Dependency graph keyed by `pkgbase`, for topological ordering.
pub struct DependencyGraph {
    graph: petgraph::graph::Graph<(), (), petgraph::Directed, usize>,
    names: Vec<String>,
}

/// No name occurs twice.
pub open spec fn unique_names(ns: Seq<Seq<char>>) -> bool {
    forall|i: int, j: int| 0 <= i < j < ns.len() ==> ns[i] != ns[j]
}

/// The index a name stands at.
pub open spec fn idx_of(ns: Seq<Seq<char>>, n: Seq<char>) -> int {
    choose|i: int| 0 <= i < ns.len() && ns[i] == n
}

pub proof fn lemma_idx_of(ns: Seq<Seq<char>>, n: Seq<char>)
    requires
        unique_names(ns),
        ns.contains(n),
    ensures
        0 <= idx_of(ns, n) < ns.len(),
        ns[idx_of(ns, n)] == n,
        forall|i: int| 0 <= i < ns.len() && ns[i] == n ==> i == idx_of(ns, n),
{
    let w = idx_of(ns, n);
    assert(0 <= w < ns.len() && ns[w] == n);
    assert forall|i: int| 0 <= i < ns.len() && ns[i] == n implies i == w by {
        if i < w {
            assert(ns[i] != ns[w]);
        } else if i > w {
            assert(ns[w] != ns[i]);
        }
    }
}

impl DependencyGraph {
    /// The node names, in insertion order.
    pub closed spec fn nodes(&self) -> Seq<Seq<char>> {
        self.names.deep_view()
    }

    /// The edges, as pairs of node indices: `(a, b)` says the base at
    /// `a` depends on the base at `b`.
    pub closed spec fn edges(&self) -> Set<(int, int)> {
        graph_edges(self.graph)
    }

    /// Every name once, one graph node per name, edges between nodes.
    pub closed spec fn wf(&self) -> bool {
        &&& graph_nodes(self.graph) == self.nodes().len()
        &&& unique_names(self.nodes())
        &&& forall|e: (int, int)|
            self.edges().contains(e) ==> 0 <= e.0 < self.nodes().len() && 0 <= e.1
                < self.nodes().len()
    }

    pub fn new() -> (g: Self)
        ensures
            g.wf(),
            g.nodes() == Seq::<Seq<char>>::empty(),
            g.edges() == Set::<(int, int)>::empty(),
    {
        let g = DependencyGraph { graph: graph_new(), names: Vec::new() };
        proof {
            assert(g.nodes() =~= Seq::<Seq<char>>::empty());
        }
        g
    }

    /// The index `pkg` stands at, if it was inserted.
    fn find_name(&self, pkg: &str) -> (r: Option<usize>)
        ensures
            match r {
                Some(i) => i < self.nodes().len() && self.nodes()[i as int] == pkg@,
                None => !self.nodes().contains(pkg@),
            },
    {
        let target = str_chars(pkg);
        let ghost nv = self.nodes();
        let mut i: usize = 0;
        while i < self.names.len()
            invariant
                i <= self.names@.len(),
                nv == self.nodes(),
                target@ == pkg@,
                forall|j: int| 0 <= j < i ==> nv[j] != pkg@,
            decreases self.names@.len() - i,
        {
            let c = str_chars(self.names[i].as_str());
            if chars_eq(&c, &target) {
                return Some(i);
            }
            i = i + 1;
        }
        assert(forall|j: int| 0 <= j < nv.len() ==> nv[j] != pkg@);
        None
    }

    /// Inserts `pkg` as a node, once: a second insertion of the same
    /// name changes nothing. Returns the node's index.
    pub fn add_node(&mut self, pkg: &str) -> (ix: usize)
        requires
            old(self).wf(),
        ensures
            final(self).wf(),
            ix < final(self).nodes().len(),
            final(self).nodes()[ix as int] == pkg@,
            final(self).edges() == old(self).edges(),
            old(self).nodes().contains(pkg@) ==> final(self).nodes() == old(self).nodes(),
            !old(self).nodes().contains(pkg@) ==> final(self).nodes() == old(self).nodes().push(
                pkg@,
            ),
    {
        match self.find_name(pkg) {
            Some(i) => {
                proof {
                    assert(self.nodes()[i as int] == pkg@);
                    assert(self.nodes().contains(pkg@));
                    assert forall|e: (int, int)| self.edges().contains(e) implies 0 <= e.0
                        < self.nodes().len() && 0 <= e.1 < self.nodes().len() by {
                        assert(old(self).edges().contains(e));
                    }
                }
                i
            },
            None => {
                let ix = graph_add_node(&mut self.graph);
                self.names.push(String::from_str(pkg));
                proof {
                    assert(self.nodes() =~= old(self).nodes().push(pkg@));
                    assert forall|i: int, j: int|
                        0 <= i < j < self.nodes().len() implies self.nodes()[i]
                        != self.nodes()[j] by {
                        if j < self.nodes().len() - 1 {
                            assert(old(self).nodes()[i] != old(self).nodes()[j]);
                        } else {
                            assert(!old(self).nodes().contains(pkg@));
                            assert(old(self).nodes()[i] != pkg@);
                        }
                    }
                    assert forall|e: (int, int)| self.edges().contains(e) implies 0 <= e.0
                        < self.nodes().len() && 0 <= e.1 < self.nodes().len() by {
                        assert(old(self).edges().contains(e));
                    }
                }
                ix
            },
        }
    }

    /// Inserts both names if needed, and the edge "`from` depends on
    /// `to`".
    pub fn add_edge(&mut self, from: &str, to: &str)
        requires
            old(self).wf(),
        ensures
            final(self).wf(),
            final(self).nodes() == add_name_spec(add_name_spec(old(self).nodes(), from@), to@),
            final(self).nodes().contains(from@),
            final(self).nodes().contains(to@),
            final(self).edges() == old(self).edges().insert(
                (idx_of(final(self).nodes(), from@), idx_of(final(self).nodes(), to@)),
            ),
    {
        let fi = self.add_node(from);
        let ghost mid = self.nodes();
        let ti = self.add_node(to);
        proof {
            assert(self.nodes().contains(from@)) by {
                if mid.contains(to@) {
                } else {
                    assert(self.nodes()[fi as int] == from@);
                }
            }
            assert(self.nodes().contains(to@));
            lemma_idx_of(self.nodes(), from@);
            lemma_idx_of(self.nodes(), to@);
            assert(self.nodes()[fi as int] == from@);
            assert(idx_of(self.nodes(), from@) == fi);
            assert(idx_of(self.nodes(), to@) == ti);
        }
        graph_add_edge(&mut self.graph, fi, ti);
        proof {
            assert(final(self).nodes() =~= add_name_spec(
                add_name_spec(old(self).nodes(), from@),
                to@,
            ));
        }
    }

    /// Whether `pkg` was inserted as a node.
    pub fn contains_node(&self, pkg: &str) -> (r: bool)
        ensures
            r == self.nodes().contains(pkg@),
    {
        match self.find_name(pkg) {
            Some(i) => {
                proof {
                    assert(self.nodes()[i as int] == pkg@);
                }
                true
            },
            None => false,
        }
    }

    /// The node names, in insertion order, as values.
    pub fn node_names(&self) -> (r: Vec<String>)
        ensures
            r.deep_view() == self.nodes(),
    {
        let mut r: Vec<String> = Vec::new();
        let mut i: usize = 0;
        assert(r.deep_view() =~= self.nodes().subrange(0, 0));
        while i < self.names.len()
            invariant
                i <= self.names@.len(),
                self.nodes().len() == self.names@.len(),
                r.deep_view() == self.nodes().subrange(0, i as int),
            decreases self.names@.len() - i,
        {
            let ghost pre = r.deep_view();
            let name = self.names[i].clone();
            assert(name@ == self.nodes()[i as int]);
            r.push(name);
            i = i + 1;
            assert(r.deep_view() =~= pre.push(self.nodes()[i - 1]));
            assert(r.deep_view() =~= self.nodes().subrange(0, i as int));
        }
        assert(self.nodes().subrange(0, self.nodes().len() as int) =~= self.nodes());
        r
    }

    /// How many bases the graph holds.
    pub fn node_count(&self) -> (n: usize)
        requires
            self.wf(),
        ensures
            n == self.nodes().len(),
    {
        graph_node_count(&self.graph)
    }

    /// The bases in dependency-first order: for every edge "`a` depends
    /// on `b`", `b` comes strictly before `a`. A cyclic graph gives
    /// back a name on a cycle instead; an acyclic graph never fails.
    pub fn topological_order(&self) -> (r: Result<Vec<String>, String>)
        requires
            self.wf(),
        ensures
            match r {
                Ok(out) => {
                    &&& out.deep_view().len() == self.nodes().len()
                    &&& forall|i: int|
                        0 <= i < out.deep_view().len() ==> self.nodes().contains(
                            #[trigger] out.deep_view()[i],
                        )
                    &&& forall|i: int, j: int|
                        0 <= i < out.deep_view().len() && 0 <= j < out.deep_view().len() && i != j
                            ==> out.deep_view()[i] != out.deep_view()[j]
                    &&& forall|i: int, j: int|
                        0 <= i < out.deep_view().len() && 0 <= j < out.deep_view().len()
                            && self.edges().contains(
                            (
                                idx_of(self.nodes(), out.deep_view()[i]),
                                idx_of(self.nodes(), out.deep_view()[j]),
                            ),
                        ) ==> j < i
                    &&& forall|n: Seq<char>|
                        self.nodes().contains(n) ==> out.deep_view().contains(n)
                },
                Err(e) => has_cycle(self.edges()) && self.nodes().contains(e@) && on_cycle(
                    self.edges(),
                    idx_of(self.nodes(), e@),
                ),
            },
            r is Err <==> has_cycle(self.edges()),
    {
        let ghost nv = self.nodes();
        match graph_toposort(&self.graph) {
            Ok(v) => {
                let n = v.len();
                let mut out: Vec<String> = Vec::new();
                let mut k: usize = 0;
                while k < n
                    invariant
                        k <= n,
                        n == v@.len(),
                        nv == self.nodes(),
                        self.wf(),
                        v@.len() == nv.len(),
                        forall|i: int| 0 <= i < v@.len() ==> v@[i] < nv.len(),
                        forall|i: int, j: int|
                            0 <= i < v@.len() && 0 <= j < v@.len() && i != j ==> v@[i] != v@[j],
                        forall|i: int, j: int|
                            0 <= i < v@.len() && 0 <= j < v@.len() && graph_edges(
                                self.graph,
                            ).contains((v@[i] as int, v@[j] as int)) ==> i < j,
                        out.deep_view().len() == k,
                        forall|t: int|
                            0 <= t < k ==> #[trigger] out.deep_view()[t] == nv[v@[n - 1 - t] as int],
                    decreases n - k,
                {
                    let name = self.names[v[n - 1 - k]].clone();
                    let ghost pre = out.deep_view();
                    out.push(name);
                    proof {
                        assert(out.deep_view() =~= pre.push(nv[v@[n - 1 - k as int] as int]));
                    }
                    k = k + 1;
                }
                proof {
                    let ov = out.deep_view();
                    assert forall|i: int|
                        0 <= i < ov.len() implies self.nodes().contains(#[trigger] ov[i]) by {
                        let a = v@[n - 1 - i] as int;
                        assert(ov[i] == nv[a]);
                        assert(0 <= a < nv.len());
                    }
                    assert forall|i: int, j: int|
                        0 <= i < ov.len() && 0 <= j < ov.len() && i != j implies ov[i] != ov[j] by {
                        let a = v@[n - 1 - i] as int;
                        let b = v@[n - 1 - j] as int;
                        assert(ov[i] == nv[a]);
                        assert(ov[j] == nv[b]);
                        assert(v@[n - 1 - i] != v@[n - 1 - j]);
                        if a < b {
                            assert(nv[a] != nv[b]);
                        } else {
                            assert(nv[b] != nv[a]);
                        }
                    }
                    assert forall|i: int, j: int|
                        0 <= i < ov.len() && 0 <= j < ov.len() && self.edges().contains(
                            (idx_of(self.nodes(), ov[i]), idx_of(self.nodes(), ov[j])),
                        ) implies j < i by {
                        let a = v@[n - 1 - i] as int;
                        let b = v@[n - 1 - j] as int;
                        assert(ov[i] == nv[a]);
                        assert(ov[j] == nv[b]);
                        assert(0 <= a < nv.len());
                        assert(0 <= b < nv.len());
                        assert(nv.contains(ov[i]));
                        assert(nv.contains(ov[j]));
                        lemma_idx_of(nv, ov[i]);
                        lemma_idx_of(nv, ov[j]);
                        assert(idx_of(nv, ov[i]) == a);
                        assert(idx_of(nv, ov[j]) == b);
                        assert(n - 1 - i < n - 1 - j);
                    }
                    assert forall|name: Seq<char>|
                        self.nodes().contains(name) implies ov.contains(name) by {
                        lemma_idx_of(nv, name);
                        let a = idx_of(nv, name);
                        assert(v@.contains(a as usize));
                        let p = choose|p: int| 0 <= p < v@.len() && v@[p] == a as usize;
                        assert(ov[n - 1 - p] == nv[v@[n - 1 - (n - 1 - p)] as int]);
                        assert(v@[n - 1 - (n - 1 - p)] == v@[p]);
                        assert(ov[n - 1 - p] == name);
                    }
                }
                Ok(out)
            },
            Err(c) => {
                let name = self.names[c].clone();
                proof {
                    assert(self.nodes()[c as int] == name@);
                    assert(self.nodes().contains(name@));
                    lemma_idx_of(self.nodes(), name@);
                    assert(idx_of(self.nodes(), name@) == c);
                    lemma_on_cycle_has_cycle(self.edges(), c as int);
                }
                Err(name)
            },
        }
    }
}

/// A well-formed graph names each base once.
pub proof fn lemma_wf_unique(g: &DependencyGraph)
    requires
        g.wf(),
    ensures
        unique_names(g.nodes()),
{
}

/// A name list after one idempotent insertion.
pub open spec fn add_name_spec(ns: Seq<Seq<char>>, n: Seq<char>) -> Seq<Seq<char>> {
    if ns.contains(n) {
        ns
    } else {
        ns.push(n)
    }
}

} // verus!
