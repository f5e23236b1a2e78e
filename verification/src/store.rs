//! The graph store: nodes with stable identity, upsert-by-id semantics,
//! and a directed multigraph of edges whose endpoints must both exist at
//! insertion time.
//!
//! The mathematical model is [`StoreView`]: a sequence of node records in
//! insertion order plus a sequence of edges as index pairs. All public
//! operations are specified as pure functions on that model.

use vstd::prelude::*;
use vstd::string::*;

verus! {

/// One node of the graph. `id` is the primary key; every other field is
/// free-form display data. An empty `ts` means the timestamp is unknown.
pub struct NodeData {
    pub id: String,
    pub label: String,
    pub span: String,
    pub tags: Vec<String>,
    pub ts: String,
}

/// The mathematical value of a [`NodeData`]: every field as a sequence.
#[verifier::ext_equal]
pub ghost struct NodeView {
    pub id: Seq<char>,
    pub label: Seq<char>,
    pub span: Seq<char>,
    pub tags: Seq<Seq<char>>,
    pub ts: Seq<char>,
}

impl View for NodeData {
    type V = NodeView;

    open spec fn view(&self) -> NodeView {
        NodeView {
            id: self.id@,
            label: self.label@,
            span: self.span@,
            tags: self.tags.deep_view(),
            ts: self.ts@,
        }
    }
}

impl DeepView for NodeData {
    type V = NodeView;

    open spec fn deep_view(&self) -> NodeView {
        self.view()
    }
}

/// The placeholder node created when only an identity is known.
pub open spec fn stub_view(id: Seq<char>) -> NodeView {
    NodeView {
        id,
        label: Seq::empty(),
        span: Seq::empty(),
        tags: Seq::empty(),
        ts: Seq::empty(),
    }
}

/// What a node shows in lists: the bare id when there is no label,
/// otherwise the id and the label joined by a separator.
pub open spec fn display_label_spec(id: Seq<char>, label: Seq<char>) -> Seq<char> {
    if label.len() == 0 {
        id
    } else {
        id + " \u{b7} "@ + label
    }
}

impl NodeData {
    pub fn display_label(&self) -> (r: String)
        ensures
            r@ == display_label_spec(self.id@, self.label@),
    {
        if self.label.as_str().is_empty() {
            self.id.clone()
        } else {
            let mut s = self.id.clone();
            s.append(" \u{b7} ");
            s.append(self.label.as_str());
            s
        }
    }
}

/// Whether some node in `nodes` carries the identity `id`.
pub open spec fn has_id(nodes: Seq<NodeView>, id: Seq<char>) -> bool {
    exists|i: int| 0 <= i < nodes.len() && (#[trigger] nodes[i]).id == id
}

/// The index of the node carrying `id`. Meaningful only when `has_id`
/// holds; under distinct ids it is the unique such index.
pub open spec fn id_index(nodes: Seq<NodeView>, id: Seq<char>) -> int {
    choose|i: int| 0 <= i < nodes.len() && (#[trigger] nodes[i]).id == id
}

/// The neighbors of `idx` read off the edge sequence, in edge insertion
/// order, one entry per edge (parallel edges repeat their endpoint).
/// With `incoming` the sources of edges into `idx`; otherwise the targets
/// of edges out of `idx`.
pub open spec fn neighbors_spec(edges: Seq<(usize, usize)>, idx: usize, incoming: bool) -> Seq<
    usize,
>
    decreases edges.len(),
{
    if edges.len() == 0 {
        Seq::empty()
    } else {
        let rest = neighbors_spec(edges.drop_last(), idx, incoming);
        let e = edges.last();
        if incoming {
            if e.1 == idx {
                rest.push(e.0)
            } else {
                rest
            }
        } else {
            if e.0 == idx {
                rest.push(e.1)
            } else {
                rest
            }
        }
    }
}

/// The mathematical value of a [`GraphModel`].
#[verifier::ext_equal]
pub ghost struct StoreView {
    pub nodes: Seq<NodeView>,
    pub edges: Seq<(usize, usize)>,
}

impl StoreView {
    /// Identities are unique and every edge endpoint is a valid index.
    pub open spec fn wf(self) -> bool {
        &&& forall|i: int, j: int|
            0 <= i < j < self.nodes.len() ==> (#[trigger] self.nodes[i]).id != (
            #[trigger] self.nodes[j]).id
        &&& forall|k: int|
            0 <= k < self.edges.len() ==> (#[trigger] self.edges[k]).0 < self.nodes.len()
                && self.edges[k].1 < self.nodes.len()
    }

    /// Full overwrite of the node under `nv.id` if present, otherwise
    /// append. Edges and the positions of all nodes are untouched.
    pub open spec fn upsert(self, nv: NodeView) -> StoreView {
        if has_id(self.nodes, nv.id) {
            StoreView { nodes: self.nodes.update(id_index(self.nodes, nv.id), nv), edges: self.edges }
        } else {
            StoreView { nodes: self.nodes.push(nv), edges: self.edges }
        }
    }

    /// The index at which an upsert of a node with identity `id` lands.
    pub open spec fn upsert_index(self, id: Seq<char>) -> int {
        if has_id(self.nodes, id) {
            id_index(self.nodes, id)
        } else {
            self.nodes.len() as int
        }
    }

    /// An edge is accepted only when both endpoints are already present.
    pub open spec fn edge_accepted(self, from: Seq<char>, to: Seq<char>) -> bool {
        has_id(self.nodes, from) && has_id(self.nodes, to)
    }

    /// Append the edge when accepted; otherwise leave the store unchanged.
    pub open spec fn add_edge_v(self, from: Seq<char>, to: Seq<char>) -> StoreView {
        if self.edge_accepted(from, to) {
            StoreView {
                nodes: self.nodes,
                edges: self.edges.push(
                    (id_index(self.nodes, from) as usize, id_index(self.nodes, to) as usize),
                ),
            }
        } else {
            self
        }
    }

    /// Direct predecessors of `idx`, in edge insertion order.
    pub open spec fn parents(self, idx: usize) -> Seq<usize> {
        neighbors_spec(self.edges, idx, true)
    }

    /// Direct successors of `idx`, in edge insertion order.
    pub open spec fn children(self, idx: usize) -> Seq<usize> {
        neighbors_spec(self.edges, idx, false)
    }
}

/// An edge event that was refused because an endpoint was absent.
#[derive(Debug)]
pub struct RejectedEdge {
    pub from: String,
    pub to: String,
}

impl View for RejectedEdge {
    type V = (Seq<char>, Seq<char>);

    open spec fn view(&self) -> (Seq<char>, Seq<char>) {
        (self.from@, self.to@)
    }
}

impl DeepView for RejectedEdge {
    type V = (Seq<char>, Seq<char>);

    open spec fn deep_view(&self) -> (Seq<char>, Seq<char>) {
        self.view()
    }
}

/// A directed multigraph of [`NodeData`] records keyed by their `id`:
/// an arena of nodes in insertion order plus an edge list of index pairs.
pub struct GraphModel {
    pub nodes: Vec<NodeData>,
    pub edges: Vec<(usize, usize)>,
}

impl View for GraphModel {
    type V = StoreView;

    open spec fn view(&self) -> StoreView {
        StoreView { nodes: self.nodes.deep_view(), edges: self.edges@ }
    }
}

impl GraphModel {
    pub open spec fn wf(&self) -> bool {
        self@.wf()
    }

    pub fn new() -> (r: GraphModel)
        ensures
            r@.nodes.len() == 0,
            r@.edges.len() == 0,
            r.wf(),
    {
        GraphModel { nodes: Vec::new(), edges: Vec::new() }
    }

    /// The number of nodes in the store.
    pub fn node_count(&self) -> (r: usize)
        ensures
            r == self@.nodes.len(),
    {
        self.nodes.len()
    }

    /// The node record at an arena index.
    pub fn node(&self, idx: usize) -> (r: &NodeData)
        requires
            idx < self@.nodes.len(),
        ensures
            r@ == self@.nodes[idx as int],
    {
        &self.nodes[idx]
    }

    /// Linear scan for the arena index of `id`.
    fn index_of_id(&self, id: &String) -> (r: Option<usize>)
        ensures
            match r {
                Some(i) => i < self@.nodes.len() && self@.nodes[i as int].id == id@,
                None => !has_id(self@.nodes, id@),
            },
    {
        let n = self.nodes.len();
        let mut i: usize = 0;
        while i < n
            invariant
                i <= n,
                n == self@.nodes.len(),
                forall|j: int| 0 <= j < i ==> (#[trigger] self@.nodes[j]).id != id@,
            decreases n - i,
        {
            if self.nodes[i].id == *id {
                return Some(i);
            }
            i += 1;
        }
        None
    }

    /// Inserts the node, or fully overwrites the node already stored
    /// under `id`; returns the arena index, which never changes across
    /// overwrites. Never fails.
    pub fn upsert_node(&mut self, id: &String, nd: NodeData) -> (idx: usize)
        requires
            old(self).wf(),
            nd.id@ == id@,
        ensures
            final(self).wf(),
            final(self)@ == old(self)@.upsert(nd@),
            idx as int == old(self)@.upsert_index(id@),
            final(self)@.nodes.len() == if has_id(old(self)@.nodes, id@) {
                old(self)@.nodes.len()
            } else {
                old(self)@.nodes.len() + 1
            },
    {
        let ghost pre = self@;
        match self.index_of_id(id) {
            Some(i) => {
                self.nodes.set(i, nd);
                proof {
                    assert(has_id(pre.nodes, id@));
                    let c = id_index(pre.nodes, id@);
                    assert(0 <= c < pre.nodes.len() && pre.nodes[c].id == id@);
                    assert(c == i as int);
                    assert(self@.nodes =~= pre.nodes.update(i as int, nd@));
                    assert(self@ =~= pre.upsert(nd@));
                    assert(self.wf());
                }
                i
            },
            None => {
                let i = self.nodes.len();
                self.nodes.push(nd);
                proof {
                    assert(self@.nodes =~= pre.nodes.push(nd@));
                    assert(self@ =~= pre.upsert(nd@));
                    assert forall|a: int, b: int|
                        0 <= a < b < self@.nodes.len() implies (#[trigger] self@.nodes[a]).id != (
                    #[trigger] self@.nodes[b]).id by {
                        if b == i as int {
                            assert(!has_id(pre.nodes, id@));
                            assert(pre.nodes[a].id != id@);
                        }
                    }
                    assert(self.wf());
                }
                i
            },
        }
    }

    /// Returns the index of the node under `id`, creating a placeholder
    /// node with empty fields when none exists yet.
    pub fn ensure_node_id(&mut self, id: &String) -> (idx: usize)
        requires
            old(self).wf(),
        ensures
            final(self).wf(),
            final(self)@ == if has_id(old(self)@.nodes, id@) {
                old(self)@
            } else {
                old(self)@.upsert(stub_view(id@))
            },
            idx as int == old(self)@.upsert_index(id@),
    {
        match self.index_of_id(id) {
            Some(i) => {
                proof {
                    assert(has_id(self@.nodes, id@));
                    let c = id_index(self@.nodes, id@);
                    assert(0 <= c < self@.nodes.len() && self@.nodes[c].id == id@);
                    assert(c == i as int);
                }
                i
            },
            None => {
                let nd = NodeData {
                    id: id.clone(),
                    label: String::new(),
                    span: String::new(),
                    tags: Vec::new(),
                    ts: String::new(),
                };
                proof {
                    assert(nd@.tags =~= stub_view(id@).tags);
                    assert(nd@ =~= stub_view(id@));
                }
                self.upsert_node(id, nd)
            },
        }
    }

    /// Appends the edge when both endpoints already exist; otherwise the
    /// store is left unchanged and the rejected pair is returned.
    pub fn add_edge(&mut self, from: &String, to: &String) -> (r: Result<(), RejectedEdge>)
        requires
            old(self).wf(),
        ensures
            final(self).wf(),
            final(self)@ == old(self)@.add_edge_v(from@, to@),
            r is Ok <==> old(self)@.edge_accepted(from@, to@),
            r matches Err(e) ==> e.from@ == from@ && e.to@ == to@,
    {
        let ghost pre = self@;
        let a = self.index_of_id(from);
        let b = self.index_of_id(to);
        match (a, b) {
            (Some(x), Some(y)) => {
                proof {
                    assert(has_id(pre.nodes, from@));
                    assert(has_id(pre.nodes, to@));
                    let cf = id_index(pre.nodes, from@);
                    assert(0 <= cf < pre.nodes.len() && pre.nodes[cf].id == from@);
                    assert(cf == x as int);
                    let ct = id_index(pre.nodes, to@);
                    assert(0 <= ct < pre.nodes.len() && pre.nodes[ct].id == to@);
                    assert(ct == y as int);
                }
                self.edges.push((x, y));
                proof {
                    assert(self@ =~= pre.add_edge_v(from@, to@));
                }
                Ok(())
            },
            _ => {
                proof {
                    assert(!pre.edge_accepted(from@, to@));
                }
                Err(RejectedEdge { from: from.clone(), to: to.clone() })
            },
        }
    }

    /// One entry per matching edge, in edge insertion order.
    fn collect_directed(&self, idx: usize, incoming: bool) -> (r: Vec<usize>)
        ensures
            r@ == neighbors_spec(self@.edges, idx, incoming),
    {
        let m = self.edges.len();
        let mut r: Vec<usize> = Vec::new();
        let mut k: usize = 0;
        while k < m
            invariant
                k <= m,
                m == self@.edges.len(),
                r@ == neighbors_spec(self@.edges.subrange(0, k as int), idx, incoming),
            decreases m - k,
        {
            let e = self.edges[k];
            proof {
                assert(self@.edges.subrange(0, k + 1).drop_last() =~= self@.edges.subrange(
                    0,
                    k as int,
                ));
                assert(self@.edges.subrange(0, k + 1).last() == self@.edges[k as int]);
            }
            if incoming {
                if e.1 == idx {
                    r.push(e.0);
                }
            } else {
                if e.0 == idx {
                    r.push(e.1);
                }
            }
            k += 1;
        }
        proof {
            assert(self@.edges.subrange(0, m as int) =~= self@.edges);
        }
        r
    }

    /// Direct predecessors of `idx`, in edge insertion order; parallel
    /// edges repeat their source. The order is stable across calls.
    pub fn parents_of(&self, idx: usize) -> (r: Vec<usize>)
        ensures
            r@ == self@.parents(idx),
    {
        self.collect_directed(idx, true)
    }

    /// Direct successors of `idx`, in edge insertion order; parallel
    /// edges repeat their target. The order is stable across calls.
    pub fn children_of(&self, idx: usize) -> (r: Vec<usize>)
        ensures
            r@ == self@.children(idx),
    {
        self.collect_directed(idx, false)
    }

    /// The in-degree and out-degree of `idx`, counting parallel edges.
    pub fn degree(&self, idx: usize) -> (r: (usize, usize))
        ensures
            r.0 == self@.parents(idx).len(),
            r.1 == self@.children(idx).len(),
    {
        (self.parents_of(idx).len(), self.children_of(idx).len())
    }
}

/// Every neighbor of a well-formed store is a valid arena index.
pub proof fn lemma_neighbors_bounded(edges: Seq<(usize, usize)>, n: nat, idx: usize, incoming: bool)
    requires
        forall|k: int| 0 <= k < edges.len() ==> (#[trigger] edges[k]).0 < n && edges[k].1 < n,
    ensures
        forall|k: int|
            0 <= k < neighbors_spec(edges, idx, incoming).len() ==> #[trigger] neighbors_spec(
                edges,
                idx,
                incoming,
            )[k] < n,
    decreases edges.len(),
{
    if edges.len() > 0 {
        lemma_neighbors_bounded(edges.drop_last(), n, idx, incoming);
        let rest = neighbors_spec(edges.drop_last(), idx, incoming);
        let whole = neighbors_spec(edges, idx, incoming);
        assert(edges.last() == edges[edges.len() - 1]);
        assert forall|k: int| 0 <= k < whole.len() implies #[trigger] whole[k] < n by {
            if k < rest.len() {
                assert(rest[k] < n);
            }
        }
    }
}

/// Upserting a node never changes adjacency: edges are untouched, so the
/// parents and children of every index are exactly what they were. In
/// particular an edge that was rejected earlier cannot become retrievable
/// by inserting its missing endpoint later.
pub proof fn lemma_upsert_preserves_adjacency(s: StoreView, nv: NodeView, idx: usize)
    ensures
        s.upsert(nv).parents(idx) == s.parents(idx),
        s.upsert(nv).children(idx) == s.children(idx),
{
}

/// A rejected edge leaves the store exactly as it was.
pub proof fn lemma_rejected_edge_no_change(s: StoreView, from: Seq<char>, to: Seq<char>)
    requires
        !s.edge_accepted(from, to),
    ensures
        s.add_edge_v(from, to) == s,
{
}

} // verus!
