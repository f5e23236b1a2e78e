//! Depth-limited bidirectional neighborhood layering: a frontier-set BFS
//! that, for each of at most `depth` steps, collects the not-yet-visited
//! direct neighbors of the current frontier, in discovery order, and
//! stops early on an empty step. A node sits in at most one layer per
//! direction and never at more than one position of a layer.

use vstd::prelude::*;
use crate::store::{lemma_neighbors_bounded, neighbors_spec, GraphModel, StoreView};

verus! {

/// Folds one neighbor list into the layer under construction: a neighbor
/// not yet visited is appended and marked visited; the rest are skipped.
pub open spec fn absorb(ns: Seq<usize>, visited: Set<usize>, layer: Seq<usize>) -> (
    Set<usize>,
    Seq<usize>,
)
    decreases ns.len(),
{
    if ns.len() == 0 {
        (visited, layer)
    } else {
        let h = ns.first();
        if visited.contains(h) {
            absorb(ns.drop_first(), visited, layer)
        } else {
            absorb(ns.drop_first(), visited.insert(h), layer.push(h))
        }
    }
}

/// One BFS step: the frontier's members contribute their neighbor lists
/// in frontier order.
pub open spec fn step_acc(
    s: StoreView,
    frontier: Seq<usize>,
    visited: Set<usize>,
    layer: Seq<usize>,
    incoming: bool,
) -> (Set<usize>, Seq<usize>)
    decreases frontier.len(),
{
    if frontier.len() == 0 {
        (visited, layer)
    } else {
        let a = absorb(neighbors_spec(s.edges, frontier.first(), incoming), visited, layer);
        step_acc(s, frontier.drop_first(), a.0, a.1, incoming)
    }
}

/// The successive layers produced from a frontier, innermost first,
/// stopping at the first empty step or when the fuel runs out.
pub open spec fn layers_v(
    s: StoreView,
    frontier: Seq<usize>,
    visited: Set<usize>,
    fuel: nat,
    incoming: bool,
) -> Seq<Seq<usize>>
    decreases fuel,
{
    if fuel == 0 {
        Seq::empty()
    } else {
        let a = step_acc(s, frontier, visited, Seq::empty(), incoming);
        if a.1.len() == 0 {
            Seq::empty()
        } else {
            seq![a.1] + layers_v(s, a.1, a.0, (fuel - 1) as nat, incoming)
        }
    }
}

/// The layers around a focal node in one direction, innermost first.
pub open spec fn direction_layers(s: StoreView, focal: usize, depth: nat, incoming: bool) -> Seq<
    Seq<usize>,
> {
    layers_v(s, seq![focal], set![focal], depth, incoming)
}

/// Ancestor layers as handed out: outermost (deepest) first.
pub open spec fn ancestor_layers(s: StoreView, focal: usize, depth: nat) -> Seq<Seq<usize>> {
    direction_layers(s, focal, depth, true).reverse()
}

/// Descendant layers as handed out: innermost first.
pub open spec fn descendant_layers(s: StoreView, focal: usize, depth: nat) -> Seq<Seq<usize>> {
    direction_layers(s, focal, depth, false)
}

/// The indices marked true in a visited map.
pub open spec fn vset(v: Seq<bool>) -> Set<usize> {
    Set::new(|i: usize| i < v.len() && v[i as int])
}

fn bfs_layers(gm: &GraphModel, focal: usize, depth: usize, incoming: bool) -> (r: Vec<Vec<usize>>)
    requires
        gm.wf(),
        focal < gm@.nodes.len(),
    ensures
        r.deep_view() == direction_layers(gm@, focal, depth as nat, incoming),
{
    let ghost s = gm@;
    let n = gm.node_count();
    let mut visited: Vec<bool> = Vec::new();
    let mut i: usize = 0;
    while i < n
        invariant
            i <= n,
            visited@.len() == i,
            forall|j: int| 0 <= j < i ==> !visited@[j],
        decreases n - i,
    {
        visited.push(false);
        i += 1;
    }
    visited.set(focal, true);
    proof {
        assert(vset(visited@) =~= set![focal]);
    }
    let mut frontier: Vec<usize> = Vec::new();
    frontier.push(focal);
    proof {
        assert(frontier@ =~= seq![focal]);
        assert(Seq::<Seq<usize>>::empty() + direction_layers(s, focal, depth as nat, incoming)
            =~= direction_layers(s, focal, depth as nat, incoming));
    }
    let mut result: Vec<Vec<usize>> = Vec::new();
    let mut d: usize = 0;
    let mut stopped = false;
    proof {
        assert(result.deep_view() =~= Seq::<Seq<usize>>::empty());
    }
    while d < depth && !stopped
        invariant
            d <= depth,
            gm.wf(),
            s == gm@,
            n == s.nodes.len(),
            visited@.len() == n,
            focal < n,
            forall|j: int| 0 <= j < frontier@.len() ==> #[trigger] frontier@[j] < n,
            !stopped ==> direction_layers(s, focal, depth as nat, incoming) == result.deep_view()
                + layers_v(s, frontier@, vset(visited@), (depth - d) as nat, incoming),
            stopped ==> direction_layers(s, focal, depth as nat, incoming) == result.deep_view(),
        decreases depth - d,
    {
        let ghost v0 = vset(visited@);
        let ghost fr = frontier@;
        let mut layer: Vec<usize> = Vec::new();
        let mut next: Vec<usize> = Vec::new();
        let flen = frontier.len();
        let mut f: usize = 0;
        proof {
            assert(fr.subrange(0, flen as int) =~= fr);
            assert(layer@ =~= Seq::<usize>::empty());
        }
        while f < flen
            invariant
                f <= flen,
                flen == frontier@.len(),
                fr == frontier@,
                gm.wf(),
                s == gm@,
                n == s.nodes.len(),
                visited@.len() == n,
                forall|j: int| 0 <= j < frontier@.len() ==> #[trigger] frontier@[j] < n,
                next@ == layer@,
                forall|j: int| 0 <= j < layer@.len() ==> #[trigger] layer@[j] < n,
                step_acc(s, fr.subrange(f as int, flen as int), vset(visited@), layer@, incoming)
                    == step_acc(s, fr, v0, Seq::<usize>::empty(), incoming),
            decreases flen - f,
        {
            let nbrs = if incoming {
                gm.parents_of(frontier[f])
            } else {
                gm.children_of(frontier[f])
            };
            proof {
                lemma_neighbors_bounded(s.edges, n as nat, fr[f as int], incoming);
                assert(nbrs@ == neighbors_spec(s.edges, fr[f as int], incoming));
            }
            let ghost vf = vset(visited@);
            let ghost lf = layer@;
            let tlen = nbrs.len();
            let mut t: usize = 0;
            proof {
                assert(nbrs@.subrange(0, tlen as int) =~= nbrs@);
            }
            while t < tlen
                invariant
                    t <= tlen,
                    tlen == nbrs@.len(),
                    n == visited@.len(),
                    forall|j: int| 0 <= j < nbrs@.len() ==> #[trigger] nbrs@[j] < n,
                    next@ == layer@,
                    forall|j: int| 0 <= j < layer@.len() ==> #[trigger] layer@[j] < n,
                    absorb(nbrs@.subrange(t as int, tlen as int), vset(visited@), layer@)
                        == absorb(nbrs@, vf, lf),
                decreases tlen - t,
            {
                let p = nbrs[t];
                proof {
                    let rem = nbrs@.subrange(t as int, tlen as int);
                    assert(rem.first() == nbrs@[t as int]);
                    assert(rem.drop_first() =~= nbrs@.subrange(t + 1, tlen as int));
                }
                if !visited[p] {
                    proof {
                        assert(!vset(visited@).contains(p));
                    }
                    let ghost vprev = vset(visited@);
                    visited.set(p, true);
                    layer.push(p);
                    next.push(p);
                    proof {
                        assert(vset(visited@) =~= vprev.insert(p));
                    }
                } else {
                    proof {
                        assert(vset(visited@).contains(p));
                    }
                }
                t += 1;
            }
            proof {
                assert(nbrs@.subrange(tlen as int, tlen as int) =~= Seq::<usize>::empty());
                assert((vset(visited@), layer@) == absorb(nbrs@, vf, lf));
                let rem = fr.subrange(f as int, flen as int);
                assert(rem.first() == fr[f as int]);
                assert(rem.drop_first() =~= fr.subrange(f + 1, flen as int));
            }
            f += 1;
        }
        proof {
            assert(fr.subrange(flen as int, flen as int) =~= Seq::<usize>::empty());
            assert((vset(visited@), layer@) == step_acc(s, fr, v0, Seq::<usize>::empty(), incoming));
        }
        if layer.len() == 0 {
            stopped = true;
            proof {
                assert(layers_v(s, fr, v0, (depth - d) as nat, incoming) =~= Seq::<
                    Seq<usize>,
                >::empty());
                assert(result.deep_view() + Seq::<Seq<usize>>::empty() =~= result.deep_view());
            }
        } else {
            let ghost rprev = result.deep_view();
            let ghost rvec_prev = result@;
            let ghost layer_snapshot = layer;
            let ghost lv = layer@;
            result.push(layer);
            frontier = next;
            proof {
                assert forall|k: int| 0 <= k < result.deep_view().len() implies result.deep_view()[k]
                    == rprev.push(lv)[k] by {
                    assert(result.deep_view()[k] == result@[k].deep_view());
                    if k < rprev.len() {
                        assert(result@[k] == rvec_prev[k]);
                        assert(rprev[k] == rvec_prev[k].deep_view());
                    } else {
                        assert(result@[k] == layer_snapshot);
                        assert(layer_snapshot.deep_view() == lv);
                    }
                }
                assert(result.deep_view() =~= rprev.push(lv));
                assert(layers_v(s, fr, v0, (depth - d) as nat, incoming) == seq![lv] + layers_v(
                    s,
                    lv,
                    vset(visited@),
                    (depth - d - 1) as nat,
                    incoming,
                ));
                assert(rprev + (seq![lv] + layers_v(
                    s,
                    lv,
                    vset(visited@),
                    (depth - d - 1) as nat,
                    incoming,
                )) =~= result.deep_view() + layers_v(
                    s,
                    frontier@,
                    vset(visited@),
                    (depth - d - 1) as nat,
                    incoming,
                ));
            }
        }
        d += 1;
    }
    proof {
        if !stopped {
            assert(layers_v(s, frontier@, vset(visited@), (depth - d) as nat, incoming) =~= Seq::<
                Seq<usize>,
            >::empty());
            assert(result.deep_view() + Seq::<Seq<usize>>::empty() =~= result.deep_view());
        }
    }
    result
}

/// The depth-limited neighborhood of `focal`: ancestor layers outermost
/// first, descendant layers innermost first, each layer deduplicated and
/// in discovery order, stopping early at the first empty step.
pub fn layer_neighborhood(gm: &GraphModel, focal: usize, max_depth: usize) -> (r: (
    Vec<Vec<usize>>,
    Vec<Vec<usize>>,
))
    requires
        gm.wf(),
        focal < gm@.nodes.len(),
    ensures
        r.0.deep_view() == ancestor_layers(gm@, focal, max_depth as nat),
        r.1.deep_view() == descendant_layers(gm@, focal, max_depth as nat),
{
    let mut anc_inner = bfs_layers(gm, focal, max_depth, true);
    let desc = bfs_layers(gm, focal, max_depth, false);
    let ghost inner0 = anc_inner.deep_view();
    let mut anc: Vec<Vec<usize>> = Vec::new();
    proof {
        assert(anc_inner.deep_view() =~= inner0.subrange(0, anc_inner@.len() as int));
    }
    while anc_inner.len() > 0
        invariant
            anc_inner@.len() <= inner0.len(),
            anc_inner.deep_view() == inner0.subrange(0, anc_inner@.len() as int),
            anc.deep_view().len() + anc_inner@.len() == inner0.len(),
            forall|k: int|
                0 <= k < anc.deep_view().len() ==> #[trigger] anc.deep_view()[k] == inner0[inner0.len()
                    - 1 - k],
        decreases anc_inner.len(),
    {
        let ghost pre_in = anc_inner.deep_view();
        let ghost pre_anc = anc.deep_view();
        let ghost pre_vec = anc_inner@;
        let l = anc_inner.pop().unwrap();
        proof {
            assert(l == pre_vec.last());
            assert(pre_in[pre_in.len() - 1] == pre_vec.last().deep_view());
            assert forall|k: int| 0 <= k < anc_inner.deep_view().len() implies anc_inner.deep_view()[k]
                == pre_in[k] by {
                assert(anc_inner@[k] == pre_vec[k]);
                assert(anc_inner.deep_view()[k] == anc_inner@[k].deep_view());
                assert(pre_in[k] == pre_vec[k].deep_view());
            }
            assert(anc_inner.deep_view() =~= inner0.subrange(0, anc_inner@.len() as int));
        }
        anc.push(l);
        proof {
            assert(anc.deep_view() =~= pre_anc.push(l.deep_view()));
            assert(l.deep_view() == inner0[pre_in.len() - 1]);
        }
    }
    proof {
        assert(anc.deep_view() =~= direction_layers(gm@, focal, max_depth as nat, true).reverse());
    }
    (anc, desc)
}

proof fn lemma_absorb(ns: Seq<usize>, visited: Set<usize>, layer: Seq<usize>, n: nat)
    requires
        forall|j: int| 0 <= j < layer.len() ==> visited.contains(#[trigger] layer[j]),
        layer.no_duplicates(),
        forall|j: int| 0 <= j < layer.len() ==> #[trigger] layer[j] < n,
        forall|j: int| 0 <= j < ns.len() ==> #[trigger] ns[j] < n,
    ensures
        ({
            let a = absorb(ns, visited, layer);
            &&& a.1.no_duplicates()
            &&& a.1.len() >= layer.len()
            &&& a.1.subrange(0, layer.len() as int) == layer
            &&& forall|j: int| layer.len() <= j < a.1.len() ==> !visited.contains(#[trigger] a.1[j])
            &&& forall|j: int| 0 <= j < a.1.len() ==> a.0.contains(#[trigger] a.1[j])
            &&& forall|x: usize| a.0.contains(x) <==> visited.contains(x) || a.1.to_set().contains(x)
            &&& forall|j: int| 0 <= j < a.1.len() ==> #[trigger] a.1[j] < n
        }),
    decreases ns.len(),
{
    if ns.len() == 0 {
        assert forall|x: usize| visited.contains(x) <==> visited.contains(x)
            || layer.to_set().contains(x) by {
            if layer.to_set().contains(x) {
                let j = choose|j: int| 0 <= j < layer.len() && layer[j] == x;
                assert(visited.contains(layer[j]));
            }
        }
        assert(layer.subrange(0, layer.len() as int) =~= layer);
    } else {
        let h = ns.first();
        if visited.contains(h) {
            lemma_absorb(ns.drop_first(), visited, layer, n);
            let a = absorb(ns, visited, layer);
            assert forall|x: usize| a.0.contains(x) <==> visited.contains(x)
                || a.1.to_set().contains(x) by {}
        } else {
            let visited2 = visited.insert(h);
            let layer2 = layer.push(h);
            assert forall|j: int| 0 <= j < layer2.len() implies visited2.contains(
                #[trigger] layer2[j],
            ) by {
                if j < layer.len() {
                    assert(visited.contains(layer[j]));
                }
            }
            assert(layer2.no_duplicates()) by {
                assert forall|i: int, j: int| 0 <= i < j < layer2.len() implies layer2[i]
                    != layer2[j] by {
                    if j == layer.len() as int {
                        assert(!visited.contains(h));
                        assert(visited.contains(layer[i]));
                    }
                }
            }
            lemma_absorb(ns.drop_first(), visited2, layer2, n);
            let a = absorb(ns, visited, layer);
            assert(a == absorb(ns.drop_first(), visited2, layer2));
            assert(layer2.subrange(0, layer.len() as int) =~= layer);
            assert(a.1.subrange(0, layer2.len() as int).subrange(0, layer.len() as int) =~= a.1.subrange(0, layer.len() as int));
            assert(a.1.subrange(0, layer.len() as int) == layer);
            assert forall|j: int| layer.len() <= j < a.1.len() implies !visited.contains(
                #[trigger] a.1[j],
            ) by {
                if j == layer.len() as int {
                    assert(a.1.subrange(0, layer2.len() as int)[j] == a.1[j]);
                    assert(a.1[j] == h);
                } else if j >= layer2.len() {
                    assert(!visited2.contains(a.1[j]));
                } else {
                }
            }
            assert forall|x: usize| a.0.contains(x) <==> visited.contains(x)
                || a.1.to_set().contains(x) by {
                if a.0.contains(x) {
                    if !visited.contains(x) {
                        if x == h {
                            assert(a.1.subrange(0, layer2.len() as int)[layer.len() as int]
                                == a.1[layer.len() as int]);
                            assert(a.1[layer.len() as int] == h);
                            assert(a.1.to_set().contains(x));
                        } else {
                            assert(visited2.contains(x) || a.1.to_set().contains(x));
                        }
                    }
                }
                if visited.contains(x) {
                    assert(visited2.contains(x));
                    assert(a.0.contains(x));
                }
                if a.1.to_set().contains(x) {
                    let j = choose|j: int| 0 <= j < a.1.len() && a.1[j] == x;
                    assert(a.0.contains(a.1[j]));
                }
            }
        }
    }
}

proof fn lemma_step_acc(
    s: StoreView,
    frontier: Seq<usize>,
    visited: Set<usize>,
    layer: Seq<usize>,
    incoming: bool,
    n: nat,
)
    requires
        n == s.nodes.len(),
        s.wf(),
        forall|j: int| 0 <= j < layer.len() ==> visited.contains(#[trigger] layer[j]),
        layer.no_duplicates(),
        forall|j: int| 0 <= j < layer.len() ==> #[trigger] layer[j] < n,
    ensures
        ({
            let a = step_acc(s, frontier, visited, layer, incoming);
            &&& a.1.no_duplicates()
            &&& a.1.len() >= layer.len()
            &&& a.1.subrange(0, layer.len() as int) == layer
            &&& forall|j: int| layer.len() <= j < a.1.len() ==> !visited.contains(#[trigger] a.1[j])
            &&& forall|j: int| 0 <= j < a.1.len() ==> a.0.contains(#[trigger] a.1[j])
            &&& forall|x: usize| a.0.contains(x) <==> visited.contains(x) || a.1.to_set().contains(x)
            &&& forall|j: int| 0 <= j < a.1.len() ==> #[trigger] a.1[j] < n
        }),
    decreases frontier.len(),
{
    if frontier.len() == 0 {
        let a = step_acc(s, frontier, visited, layer, incoming);
        assert forall|x: usize| a.0.contains(x) <==> visited.contains(x)
            || a.1.to_set().contains(x) by {
            if layer.to_set().contains(x) {
                let j = choose|j: int| 0 <= j < layer.len() && layer[j] == x;
                assert(visited.contains(layer[j]));
            }
        }
        assert(layer.subrange(0, layer.len() as int) =~= layer);
    } else {
        let ns = neighbors_spec(s.edges, frontier.first(), incoming);
        lemma_neighbors_bounded(s.edges, n, frontier.first(), incoming);
        lemma_absorb(ns, visited, layer, n);
        let a1 = absorb(ns, visited, layer);
        assert forall|j: int| 0 <= j < a1.1.len() implies a1.0.contains(#[trigger] a1.1[j]) by {}
        lemma_step_acc(s, frontier.drop_first(), a1.0, a1.1, incoming, n);
        let a = step_acc(s, frontier, visited, layer, incoming);
        assert(a == step_acc(s, frontier.drop_first(), a1.0, a1.1, incoming));
        assert(a.1.subrange(0, a1.1.len() as int).subrange(0, layer.len() as int) =~= a.1.subrange(
            0,
            layer.len() as int,
        ));
        assert(a.1.subrange(0, layer.len() as int) == layer);
        assert forall|j: int| layer.len() <= j < a.1.len() implies !visited.contains(
            #[trigger] a.1[j],
        ) by {
            if j < a1.1.len() {
                assert(a.1.subrange(0, a1.1.len() as int)[j] == a.1[j]);
                assert(a1.1[j] == a.1[j]);
            } else {
                assert(!a1.0.contains(a.1[j]));
            }
        }
        assert forall|x: usize| a.0.contains(x) <==> visited.contains(x)
            || a.1.to_set().contains(x) by {
            if a.0.contains(x) && !visited.contains(x) {
                if a1.0.contains(x) {
                    assert(a1.1.to_set().contains(x));
                    let j = choose|j: int| 0 <= j < a1.1.len() && a1.1[j] == x;
                    assert(a.1.subrange(0, a1.1.len() as int)[j] == a.1[j]);
                    assert(a.1[j] == x);
                    assert(a.1.to_set().contains(x));
                } else {
                    assert(a.1.to_set().contains(x));
                }
            }
            if visited.contains(x) {
                assert(a1.0.contains(x));
                assert(a.0.contains(x));
            }
            if a.1.to_set().contains(x) {
                let j = choose|j: int| 0 <= j < a.1.len() && a.1[j] == x;
                assert(a.0.contains(a.1[j]));
            }
        }
    }
}

/// The layer sequences in one direction: no duplicates within a layer,
/// no index in more than one layer, nothing from the initial visited set
/// (in particular never the focal node), and every index in range.
proof fn lemma_layers_v(
    s: StoreView,
    frontier: Seq<usize>,
    visited: Set<usize>,
    fuel: nat,
    incoming: bool,
)
    requires
        s.wf(),
    ensures
        ({
            let ls = layers_v(s, frontier, visited, fuel, incoming);
            &&& forall|k: int| 0 <= k < ls.len() ==> (#[trigger] ls[k]).no_duplicates()
            &&& forall|k: int, j: int|
                0 <= k < ls.len() && 0 <= j < ls[k].len() ==> !visited.contains(
                    #[trigger] ls[k][j],
                )
            &&& forall|k1: int, j1: int, k2: int, j2: int|
                0 <= k1 < k2 < ls.len() && 0 <= j1 < ls[k1].len() && 0 <= j2 < ls[k2].len()
                    ==> #[trigger] ls[k1][j1] != #[trigger] ls[k2][j2]
            &&& forall|k: int, j: int|
                0 <= k < ls.len() && 0 <= j < ls[k].len() ==> #[trigger] ls[k][j] < s.nodes.len()
        }),
    decreases fuel,
{
    if fuel > 0 {
        let a = step_acc(s, frontier, visited, Seq::<usize>::empty(), incoming);
        lemma_step_acc(s, frontier, visited, Seq::<usize>::empty(), incoming, s.nodes.len());
        if a.1.len() > 0 {
            lemma_layers_v(s, a.1, a.0, (fuel - 1) as nat, incoming);
            let rest = layers_v(s, a.1, a.0, (fuel - 1) as nat, incoming);
            let ls = layers_v(s, frontier, visited, fuel, incoming);
            assert(ls == seq![a.1] + rest);
            assert(ls[0] == a.1);
            assert forall|k: int| 0 <= k < ls.len() implies (#[trigger] ls[k]).no_duplicates() by {
                if k > 0 {
                    assert(ls[k] == rest[k - 1]);
                }
            }
            assert forall|k: int, j: int|
                0 <= k < ls.len() && 0 <= j < ls[k].len() implies !visited.contains(
                #[trigger] ls[k][j],
            ) by {
                if k == 0 {
                } else {
                    assert(ls[k] == rest[k - 1]);
                    assert(!a.0.contains(rest[k - 1][j]));
                }
            }
            assert forall|k1: int, j1: int, k2: int, j2: int|
                0 <= k1 < k2 < ls.len() && 0 <= j1 < ls[k1].len() && 0 <= j2 < ls[k2].len()
                    implies #[trigger] ls[k1][j1] != #[trigger] ls[k2][j2] by {
                if k1 == 0 {
                    assert(ls[k2] == rest[k2 - 1]);
                    assert(!a.0.contains(rest[k2 - 1][j2]));
                    assert(a.0.contains(a.1[j1]));
                } else {
                    assert(ls[k1] == rest[k1 - 1]);
                    assert(ls[k2] == rest[k2 - 1]);
                }
            }
            assert forall|k: int, j: int|
                0 <= k < ls.len() && 0 <= j < ls[k].len() implies #[trigger] ls[k][j]
                < s.nodes.len() by {
                if k > 0 {
                    assert(ls[k] == rest[k - 1]);
                }
            }
        }
    }
}

/// The store holds a directed edge from `a` to `b`.
pub open spec fn has_edge(s: StoreView, a: usize, b: usize) -> bool {
    exists|k: int| 0 <= k < s.edges.len() && #[trigger] s.edges[k] == (a, b)
}

/// There is a directed walk of exactly `k` edges from `a` to `b`.
pub open spec fn path_len(s: StoreView, a: usize, b: usize, k: nat) -> bool
    decreases k,
{
    if k == 0 {
        a == b
    } else {
        exists|m: usize| path_len(s, a, m, (k - 1) as nat) && has_edge(s, m, b)
    }
}

/// An edge on the front of a walk extends it by one.
proof fn lemma_path_prepend(s: StoreView, a: usize, m: usize, b: usize, d: nat)
    requires
        has_edge(s, a, m),
        path_len(s, m, b, d),
    ensures
        path_len(s, a, b, (d + 1) as nat),
    decreases d,
{
    if d == 0 {
        assert(m == b);
        assert(path_len(s, a, a, 0));
        assert(path_len(s, a, b, 1));
    } else {
        let mid = choose|mid: usize| path_len(s, m, mid, (d - 1) as nat) && has_edge(s, mid, b);
        lemma_path_prepend(s, a, m, mid, (d - 1) as nat);
        assert(path_len(s, a, mid, d));
        assert(path_len(s, a, b, (d + 1) as nat));
    }
}

/// Every entry of a neighbor list witnesses an edge.
proof fn lemma_neighbor_edge(s: StoreView, edges: Seq<(usize, usize)>, idx: usize, incoming: bool)
    requires
        forall|k: int|
            0 <= k < edges.len() ==> 0 <= k < s.edges.len() && #[trigger] edges[k] == s.edges[k],
        edges.len() <= s.edges.len(),
    ensures
        incoming ==> forall|j: int|
            0 <= j < neighbors_spec(edges, idx, incoming).len() ==> has_edge(
                s,
                #[trigger] neighbors_spec(edges, idx, incoming)[j],
                idx,
            ),
        !incoming ==> forall|j: int|
            0 <= j < neighbors_spec(edges, idx, incoming).len() ==> has_edge(
                s,
                idx,
                #[trigger] neighbors_spec(edges, idx, incoming)[j],
            ),
    decreases edges.len(),
{
    if edges.len() > 0 {
        lemma_neighbor_edge(s, edges.drop_last(), idx, incoming);
        let rest = neighbors_spec(edges.drop_last(), idx, incoming);
        let whole = neighbors_spec(edges, idx, incoming);
        let e = edges.last();
        assert(e == s.edges[edges.len() - 1]);
        if incoming {
            assert forall|j: int| 0 <= j < whole.len() implies has_edge(
                s,
                #[trigger] whole[j],
                idx,
            ) by {
                if j < rest.len() {
                    assert(has_edge(s, rest[j], idx));
                } else {
                    assert(e.1 == idx && whole[j] == e.0);
                    assert(s.edges[edges.len() - 1] == (whole[j], idx));
                }
            }
        } else {
            assert forall|j: int| 0 <= j < whole.len() implies has_edge(
                s,
                idx,
                #[trigger] whole[j],
            ) by {
                if j < rest.len() {
                    assert(has_edge(s, idx, rest[j]));
                } else {
                    assert(e.0 == idx && whole[j] == e.1);
                    assert(s.edges[edges.len() - 1] == (idx, whole[j]));
                }
            }
        }
    }
}

/// Membership in a walk toward or away from the focal node, depending on
/// the direction of the traversal.
pub open spec fn connected_dir(s: StoreView, incoming: bool, focal: usize, m: usize, d: nat) -> bool {
    if incoming {
        path_len(s, m, focal, d)
    } else {
        path_len(s, focal, m, d)
    }
}

/// Some walk (possibly empty) connects `m` with the focal node, in the
/// traversal's direction.
pub open spec fn reach_any(s: StoreView, incoming: bool, focal: usize, m: usize) -> bool {
    exists|d: nat| connected_dir(s, incoming, focal, m, d)
}

/// A walk of at least one edge connects `m` with the focal node, in the
/// traversal's direction.
pub open spec fn reach_pos(s: StoreView, incoming: bool, focal: usize, m: usize) -> bool {
    exists|d: nat| d >= 1 && connected_dir(s, incoming, focal, m, d)
}

proof fn lemma_reach_pos_weaken(s: StoreView, incoming: bool, focal: usize, m: usize)
    requires
        reach_pos(s, incoming, focal, m),
    ensures
        reach_any(s, incoming, focal, m),
{
    let d = choose|d: nat| d >= 1 && connected_dir(s, incoming, focal, m, d);
    assert(connected_dir(s, incoming, focal, m, d));
}

/// Every member of an absorbed layer was in the layer already or comes
/// from the neighbor list.
proof fn lemma_absorb_members(ns: Seq<usize>, visited: Set<usize>, layer: Seq<usize>)
    ensures
        forall|j: int|
            0 <= j < absorb(ns, visited, layer).1.len() ==> layer.contains(
                #[trigger] absorb(ns, visited, layer).1[j],
            ) || ns.contains(absorb(ns, visited, layer).1[j]),
    decreases ns.len(),
{
    if ns.len() > 0 {
        let h = ns.first();
        let a = absorb(ns, visited, layer);
        if visited.contains(h) {
            lemma_absorb_members(ns.drop_first(), visited, layer);
            let b = absorb(ns.drop_first(), visited, layer);
            assert(a == b);
            assert forall|j: int|
                0 <= j < a.1.len() implies layer.contains(#[trigger] a.1[j]) || ns.contains(
                a.1[j],
            ) by {
                assert(b.1[j] == a.1[j]);
                assert(layer.contains(b.1[j]) || ns.drop_first().contains(b.1[j]));
                if ns.drop_first().contains(a.1[j]) {
                    let t = choose|t: int|
                        0 <= t < ns.drop_first().len() && ns.drop_first()[t] == a.1[j];
                    assert(ns[t + 1] == a.1[j]);
                }
            }
        } else {
            lemma_absorb_members(ns.drop_first(), visited.insert(h), layer.push(h));
            let b = absorb(ns.drop_first(), visited.insert(h), layer.push(h));
            assert(a == b);
            assert forall|j: int|
                0 <= j < a.1.len() implies layer.contains(#[trigger] a.1[j]) || ns.contains(
                a.1[j],
            ) by {
                assert(b.1[j] == a.1[j]);
                assert(layer.push(h).contains(b.1[j]) || ns.drop_first().contains(b.1[j]));
                if layer.push(h).contains(a.1[j]) {
                    let t = choose|t: int|
                        0 <= t < layer.push(h).len() && layer.push(h)[t] == a.1[j];
                    if t < layer.len() {
                        assert(layer[t] == a.1[j]);
                    } else {
                        assert(a.1[j] == h);
                        assert(ns[0] == h);
                    }
                } else if ns.drop_first().contains(a.1[j]) {
                    let t = choose|t: int|
                        0 <= t < ns.drop_first().len() && ns.drop_first()[t] == a.1[j];
                    assert(ns[t + 1] == a.1[j]);
                }
            }
        }
    }
}

/// Every member of a step's layer was in the accumulator already or is a
/// direct neighbor of some frontier member.
proof fn lemma_step_members(
    s: StoreView,
    frontier: Seq<usize>,
    visited: Set<usize>,
    layer: Seq<usize>,
    incoming: bool,
)
    ensures
        forall|j: int|
            0 <= j < step_acc(s, frontier, visited, layer, incoming).1.len() ==> layer.contains(
                #[trigger] step_acc(s, frontier, visited, layer, incoming).1[j],
            ) || exists|f: int|
                0 <= f < frontier.len() && neighbors_spec(s.edges, frontier[f], incoming).contains(
                    step_acc(s, frontier, visited, layer, incoming).1[j],
                ),
    decreases frontier.len(),
{
    if frontier.len() > 0 {
        let ns = neighbors_spec(s.edges, frontier.first(), incoming);
        let a1 = absorb(ns, visited, layer);
        lemma_absorb_members(ns, visited, layer);
        lemma_step_members(s, frontier.drop_first(), a1.0, a1.1, incoming);
        let a = step_acc(s, frontier, visited, layer, incoming);
        let b = step_acc(s, frontier.drop_first(), a1.0, a1.1, incoming);
        assert(a == b);
        assert forall|j: int|
            0 <= j < a.1.len() implies layer.contains(#[trigger] a.1[j]) || exists|f: int|
            0 <= f < frontier.len() && neighbors_spec(s.edges, frontier[f], incoming).contains(
                a.1[j],
            ) by {
            assert(b.1[j] == a.1[j]);
            assert(a1.1.contains(b.1[j]) || exists|f: int|
                0 <= f < frontier.drop_first().len() && neighbors_spec(
                    s.edges,
                    frontier.drop_first()[f],
                    incoming,
                ).contains(b.1[j]));
            if a1.1.contains(a.1[j]) {
                if !layer.contains(a.1[j]) {
                    let t = choose|t: int| 0 <= t < a1.1.len() && a1.1[t] == a.1[j];
                    assert(layer.contains(a1.1[t]) || ns.contains(a1.1[t]));
                    assert(ns.contains(a1.1[t]));
                    assert(frontier[0] == frontier.first());
                    assert(neighbors_spec(s.edges, frontier[0], incoming).contains(a.1[j]));
                }
            } else {
                let f0 = choose|f0: int|
                    0 <= f0 < frontier.drop_first().len() && neighbors_spec(
                        s.edges,
                        frontier.drop_first()[f0],
                        incoming,
                    ).contains(b.1[j]);
                assert(frontier[f0 + 1] == frontier.drop_first()[f0]);
                assert(neighbors_spec(s.edges, frontier[f0 + 1], incoming).contains(a.1[j]));
            }
        }
    }
}

/// Every node in a layer lies on a walk to or from the focal node, of at
/// least one edge.
proof fn lemma_layers_reach(
    s: StoreView,
    frontier: Seq<usize>,
    visited: Set<usize>,
    fuel: nat,
    incoming: bool,
    focal: usize,
)
    requires
        forall|f: int|
            0 <= f < frontier.len() ==> reach_any(s, incoming, focal, #[trigger] frontier[f]),
    ensures
        ({
            let ls = layers_v(s, frontier, visited, fuel, incoming);
            forall|k: int, j: int|
                0 <= k < ls.len() && 0 <= j < ls[k].len() ==> reach_pos(
                    s,
                    incoming,
                    focal,
                    #[trigger] ls[k][j],
                )
        }),
    decreases fuel,
{
    if fuel > 0 {
        let a = step_acc(s, frontier, visited, Seq::<usize>::empty(), incoming);
        lemma_step_members(s, frontier, visited, Seq::<usize>::empty(), incoming);
        if a.1.len() > 0 {
            assert forall|j: int| 0 <= j < a.1.len() implies reach_pos(
                s,
                incoming,
                focal,
                #[trigger] a.1[j],
            ) by {
                assert(Seq::<usize>::empty().contains(a.1[j]) || exists|f: int|
                    0 <= f < frontier.len() && neighbors_spec(
                        s.edges,
                        frontier[f],
                        incoming,
                    ).contains(a.1[j]));
                let f0 = choose|f0: int|
                    0 <= f0 < frontier.len() && neighbors_spec(
                        s.edges,
                        frontier[f0],
                        incoming,
                    ).contains(a.1[j]);
                let m = frontier[f0];
                assert(reach_any(s, incoming, focal, m));
                let d0 = choose|d0: nat| connected_dir(s, incoming, focal, m, d0);
                lemma_neighbor_edge(s, s.edges, m, incoming);
                let nj = choose|nj: int|
                    0 <= nj < neighbors_spec(s.edges, m, incoming).len() && neighbors_spec(
                        s.edges,
                        m,
                        incoming,
                    )[nj] == a.1[j];
                if incoming {
                    assert(has_edge(s, neighbors_spec(s.edges, m, incoming)[nj], m));
                    assert(has_edge(s, a.1[j], m));
                    assert(path_len(s, m, focal, d0));
                    lemma_path_prepend(s, a.1[j], m, focal, d0);
                    assert(connected_dir(s, incoming, focal, a.1[j], (d0 + 1) as nat));
                } else {
                    assert(has_edge(s, m, neighbors_spec(s.edges, m, incoming)[nj]));
                    assert(has_edge(s, m, a.1[j]));
                    assert(path_len(s, focal, m, d0));
                    assert(path_len(s, focal, m, ((d0 + 1) - 1) as nat) && has_edge(
                        s,
                        m,
                        a.1[j],
                    ));
                    assert(path_len(s, focal, a.1[j], (d0 + 1) as nat));
                    assert(connected_dir(s, incoming, focal, a.1[j], (d0 + 1) as nat));
                }
            }
            assert forall|f: int| 0 <= f < a.1.len() implies reach_any(
                s,
                incoming,
                focal,
                #[trigger] a.1[f],
            ) by {
                lemma_reach_pos_weaken(s, incoming, focal, a.1[f]);
            }
            lemma_layers_reach(s, a.1, a.0, (fuel - 1) as nat, incoming, focal);
            let rest = layers_v(s, a.1, a.0, (fuel - 1) as nat, incoming);
            let ls = layers_v(s, frontier, visited, fuel, incoming);
            assert(ls == seq![a.1] + rest);
            assert forall|k: int, j: int|
                0 <= k < ls.len() && 0 <= j < ls[k].len() implies reach_pos(
                s,
                incoming,
                focal,
                #[trigger] ls[k][j],
            ) by {
                if k == 0 {
                    assert(ls[0] == a.1);
                    assert(ls[k][j] == a.1[j]);
                    assert(reach_pos(s, incoming, focal, a.1[j]));
                } else {
                    assert(ls[k] == rest[k - 1]);
                    assert(ls[k][j] == rest[k - 1][j]);
                    assert(reach_pos(s, incoming, focal, rest[k - 1][j]));
                }
            }
        }
    }
}

/// A node can stand in both an ancestor layer and a descendant layer of
/// the same focal node only when the graph holds a cycle through it:
/// there is then a walk of at least one edge from the node to the focal
/// node and one of at least one edge from the focal node back to it.
pub proof fn lemma_both_sides_means_cycle(
    s: StoreView,
    focal: usize,
    depth: nat,
    x: usize,
    ka: int,
    ja: int,
    kd: int,
    jd: int,
)
    requires
        s.wf(),
        0 <= ka < ancestor_layers(s, focal, depth).len(),
        0 <= ja < ancestor_layers(s, focal, depth)[ka].len(),
        ancestor_layers(s, focal, depth)[ka][ja] == x,
        0 <= kd < descendant_layers(s, focal, depth).len(),
        0 <= jd < descendant_layers(s, focal, depth)[kd].len(),
        descendant_layers(s, focal, depth)[kd][jd] == x,
    ensures
        exists|p: nat| p >= 1 && path_len(s, x, focal, p),
        exists|q: nat| q >= 1 && path_len(s, focal, x, q),
{
    assert(path_len(s, focal, focal, 0));
    assert(connected_dir(s, true, focal, focal, 0));
    assert(connected_dir(s, false, focal, focal, 0));
    assert forall|f: int| 0 <= f < seq![focal].len() implies reach_any(
        s,
        true,
        focal,
        #[trigger] seq![focal][f],
    ) by {
        assert(seq![focal][f] == focal);
        assert(connected_dir(s, true, focal, focal, 0));
    }
    assert forall|f: int| 0 <= f < seq![focal].len() implies reach_any(
        s,
        false,
        focal,
        #[trigger] seq![focal][f],
    ) by {
        assert(seq![focal][f] == focal);
        assert(connected_dir(s, false, focal, focal, 0));
    }
    lemma_layers_reach(s, seq![focal], set![focal], depth, true, focal);
    lemma_layers_reach(s, seq![focal], set![focal], depth, false, focal);
    let inner_a = layers_v(s, seq![focal], set![focal], depth, true);
    let la = ancestor_layers(s, focal, depth);
    assert(la[ka] == inner_a[la.len() - 1 - ka]);
    assert(inner_a[la.len() - 1 - ka][ja] == x);
    assert(reach_pos(s, true, focal, x));
    let ld = descendant_layers(s, focal, depth);
    assert(ld[kd][jd] == x);
    assert(reach_pos(s, false, focal, x));
    let p = choose|p: nat| p >= 1 && connected_dir(s, true, focal, x, p);
    assert(path_len(s, x, focal, p));
    let q = choose|q: nat| q >= 1 && connected_dir(s, false, focal, x, q);
    assert(path_len(s, focal, x, q));
}

/// The layering invariants over one handed-out layer sequence: within a
/// single layer no index repeats; across the layers no index repeats;
/// the focal node is in no layer; every index is a valid arena index;
/// and, because identities are unique in a well-formed store, distinct
/// positions carry distinct identities.
pub open spec fn layers_well_formed(s: StoreView, ls: Seq<Seq<usize>>, focal: usize) -> bool {
    &&& forall|k: int| 0 <= k < ls.len() ==> (#[trigger] ls[k]).no_duplicates()
    &&& forall|k1: int, j1: int, k2: int, j2: int|
        0 <= k1 < ls.len() && 0 <= k2 < ls.len() && 0 <= j1 < ls[k1].len() && 0 <= j2
            < ls[k2].len() && (k1 != k2 || j1 != j2) ==> #[trigger] ls[k1][j1] != (
        #[trigger] ls[k2][j2])
    &&& forall|k: int, j: int|
        0 <= k < ls.len() && 0 <= j < ls[k].len() ==> #[trigger] ls[k][j] != focal
    &&& forall|k: int, j: int|
        0 <= k < ls.len() && 0 <= j < ls[k].len() ==> #[trigger] ls[k][j] < s.nodes.len()
    &&& forall|k1: int, j1: int, k2: int, j2: int|
        0 <= k1 < ls.len() && 0 <= k2 < ls.len() && 0 <= j1 < ls[k1].len() && 0 <= j2
            < ls[k2].len() && (k1 != k2 || j1 != j2) ==> s.nodes[#[trigger] ls[k1][j1] as int].id
            != s.nodes[#[trigger] ls[k2][j2] as int].id
}

/// The layering invariants hold of the ancestor layers and of the
/// descendant layers of any focal node at any depth.
pub proof fn lemma_neighborhood_dedup(s: StoreView, focal: usize, depth: nat)
    requires
        s.wf(),
    ensures
        layers_well_formed(s, ancestor_layers(s, focal, depth), focal),
        layers_well_formed(s, descendant_layers(s, focal, depth), focal),
{
    lemma_direction_dedup(s, focal, depth, true);
    lemma_direction_dedup(s, focal, depth, false);
}

proof fn lemma_direction_dedup(s: StoreView, focal: usize, depth: nat, incoming: bool)
    requires
        s.wf(),
    ensures
        incoming ==> layers_well_formed(s, ancestor_layers(s, focal, depth), focal),
        !incoming ==> layers_well_formed(s, descendant_layers(s, focal, depth), focal),
{
    lemma_layers_v(s, seq![focal], set![focal], depth, incoming);
    let inner = layers_v(s, seq![focal], set![focal], depth, incoming);
    let ls = if incoming {
        ancestor_layers(s, focal, depth)
    } else {
        descendant_layers(s, focal, depth)
    };
    assert forall|k: int| 0 <= k < ls.len() implies 0 <= (if incoming {
        ls.len() - 1 - k
    } else {
        k
    }) < inner.len() && ls[k] == inner[if incoming {
        ls.len() - 1 - k
    } else {
        k
    }] by {}
    assert forall|k: int, j: int|
        0 <= k < ls.len() && 0 <= j < ls[k].len() implies #[trigger] ls[k][j] != focal by {
        let k0: int = if incoming {
            ls.len() - 1 - k
        } else {
            k
        };
        assert(!set![focal].contains(inner[k0][j]));
    }
    assert forall|k1: int, j1: int, k2: int, j2: int|
        0 <= k1 < ls.len() && 0 <= k2 < ls.len() && 0 <= j1 < ls[k1].len() && 0 <= j2
            < ls[k2].len() && (k1 != k2 || j1 != j2) implies #[trigger] ls[k1][j1] != (
    #[trigger] ls[k2][j2]) by {
        let a1: int = if incoming {
            ls.len() - 1 - k1
        } else {
            k1
        };
        let a2: int = if incoming {
            ls.len() - 1 - k2
        } else {
            k2
        };
        if a1 == a2 {
            assert(inner[a1].no_duplicates());
        } else if a1 < a2 {
            assert(inner[a1][j1] != inner[a2][j2]);
        } else {
            assert(inner[a2][j2] != inner[a1][j1]);
        }
    }
    assert forall|k1: int, j1: int, k2: int, j2: int|
        0 <= k1 < ls.len() && 0 <= k2 < ls.len() && 0 <= j1 < ls[k1].len() && 0 <= j2
            < ls[k2].len() && (k1 != k2 || j1 != j2) implies s.nodes[#[trigger] ls[k1][j1] as int].id
            != s.nodes[#[trigger] ls[k2][j2] as int].id by {
        let x = ls[k1][j1];
        let y = ls[k2][j2];
        assert(x != y);
        assert(x < s.nodes.len() && y < s.nodes.len());
        if x < y {
            assert(s.nodes[x as int].id != s.nodes[y as int].id);
        } else {
            assert(s.nodes[y as int].id != s.nodes[x as int].id);
        }
    }
    if incoming {
        assert(ls == ancestor_layers(s, focal, depth));
        assert(layers_well_formed(s, ancestor_layers(s, focal, depth), focal));
    } else {
        assert(ls == descendant_layers(s, focal, depth));
        assert(layers_well_formed(s, descendant_layers(s, focal, depth), focal));
    }
}

} // verus!

