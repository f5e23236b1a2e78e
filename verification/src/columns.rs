//! The textual neighborhood grid: one column of display labels per
//! ancestor layer (outermost first), the bracketed focal label at the
//! center, one column per descendant layer, all columns padded with
//! empty cells to the height of the tallest.

use vstd::prelude::*;
use vstd::string::*;
use crate::store::{display_label_spec, GraphModel, StoreView};

verus! {

/// The display labels of one layer's nodes, in layer order.
pub open spec fn layer_labels(s: StoreView, layer: Seq<usize>) -> Seq<Seq<char>> {
    Seq::new(
        layer.len(),
        |i: int|
            display_label_spec(s.nodes[layer[i] as int].id, s.nodes[layer[i] as int].label),
    )
}

/// The focal node's display label in brackets.
pub open spec fn center_label(s: StoreView, focal: usize) -> Seq<char> {
    "["@ + display_label_spec(s.nodes[focal as int].id, s.nodes[focal as int].label) + "]"@
}

/// The columns before padding: ancestor layers, the focal column, then
/// descendant layers.
pub open spec fn raw_columns(
    s: StoreView,
    anc: Seq<Seq<usize>>,
    desc: Seq<Seq<usize>>,
    focal: usize,
) -> Seq<Seq<Seq<char>>> {
    Seq::new(anc.len(), |k: int| layer_labels(s, anc[k])) + seq![seq![center_label(s, focal)]]
        + Seq::new(desc.len(), |k: int| layer_labels(s, desc[k]))
}

/// The height of the tallest column, and at least one row.
pub open spec fn grid_height(cols: Seq<Seq<Seq<char>>>) -> nat
    decreases cols.len(),
{
    if cols.len() == 0 {
        1
    } else {
        let rest = grid_height(cols.drop_last());
        if cols.last().len() > rest {
            cols.last().len()
        } else {
            rest
        }
    }
}

/// A column brought to height `h` with empty cells at the bottom.
pub open spec fn pad_col(col: Seq<Seq<char>>, h: nat) -> Seq<Seq<char>> {
    Seq::new(
        h as nat,
        |r: int|
            if r < col.len() {
                col[r]
            } else {
                Seq::empty()
            },
    )
}

/// The finished grid: every raw column padded to the common height.
pub open spec fn columns_spec(
    s: StoreView,
    anc: Seq<Seq<usize>>,
    desc: Seq<Seq<usize>>,
    focal: usize,
) -> Seq<Seq<Seq<char>>> {
    let raw = raw_columns(s, anc, desc, focal);
    Seq::new(raw.len(), |k: int| pad_col(raw[k], grid_height(raw)))
}

/// Every index of every layer is a valid arena index.
pub open spec fn layers_in_range(ls: Seq<Seq<usize>>, n: nat) -> bool {
    forall|k: int, j: int|
        0 <= k < ls.len() && 0 <= j < ls[k].len() ==> (#[trigger] ls[k][j]) < n
}

/// One column of display labels.
fn label_column(gm: &GraphModel, layer: &Vec<usize>) -> (r: Vec<String>)
    requires
        forall|j: int| 0 <= j < layer@.len() ==> (#[trigger] layer@[j]) < gm@.nodes.len(),
    ensures
        r.deep_view() == layer_labels(gm@, layer@),
{
    let n = layer.len();
    let mut r: Vec<String> = Vec::new();
    let mut i: usize = 0;
    while i < n
        invariant
            i <= n,
            n == layer@.len(),
            forall|j: int| 0 <= j < layer@.len() ==> (#[trigger] layer@[j]) < gm@.nodes.len(),
            r.deep_view().len() == i,
            forall|j: int|
                0 <= j < i ==> #[trigger] r.deep_view()[j] == layer_labels(gm@, layer@)[j],
        decreases n - i,
    {
        let lbl = gm.node(layer[i]).display_label();
        let ghost pre = r.deep_view();
        let ghost pre_vec = r@;
        let ghost lbl_snapshot = lbl;
        r.push(lbl);
        proof {
            assert forall|j: int| 0 <= j < r.deep_view().len() implies #[trigger] r.deep_view()[j]
                == pre.push(lbl_snapshot@)[j] by {
                assert(r.deep_view()[j] == r@[j].deep_view());
                if j < pre.len() {
                    assert(r@[j] == pre_vec[j]);
                    assert(pre[j] == pre_vec[j].deep_view());
                } else {
                    assert(r@[j] == lbl_snapshot);
                }
            }
        }
        i += 1;
    }
    proof {
        assert(r.deep_view() =~= layer_labels(gm@, layer@));
    }
    r
}

/// Appends one side's label columns.
fn push_label_columns(out: &mut Vec<Vec<String>>, gm: &GraphModel, layers: &Vec<Vec<usize>>)
    requires
        layers_in_range(layers.deep_view(), gm@.nodes.len()),
    ensures
        final(out)@.len() == old(out)@.len() + layers@.len(),
        forall|j: int| 0 <= j < old(out)@.len() ==> final(out)@[j] == old(out)@[j],
        forall|j: int|
            0 <= j < layers@.len() ==> #[trigger] final(out)@[old(out)@.len() + j].deep_view()
                == layer_labels(gm@, layers.deep_view()[j]),
{
    let kn = layers.len();
    let ghost base: int = out@.len() as int;
    let ghost dv = layers.deep_view();
    let mut k: usize = 0;
    while k < kn
        invariant
            k <= kn,
            kn == layers@.len(),
            dv == layers.deep_view(),
            dv.len() == kn,
            layers_in_range(dv, gm@.nodes.len()),
            base == old(out)@.len(),
            out@.len() == base + k,
            forall|j: int| 0 <= j < base ==> out@[j] == old(out)@[j],
            forall|j: int|
                0 <= j < k ==> #[trigger] out@[base + j].deep_view() == layer_labels(gm@, dv[j]),
        decreases kn - k,
    {
        let layer: &Vec<usize> = &layers[k];
        proof {
            assert(layer@ == dv[k as int]);
            assert forall|j: int| 0 <= j < layer@.len() implies (#[trigger] layer@[j])
                < gm@.nodes.len() by {
                assert(dv[k as int][j] < gm@.nodes.len());
            }
        }
        let col = label_column(gm, layer);
        out.push(col);
        k += 1;
    }
}

/// Builds the textual grid of display labels for a layered neighborhood.
pub fn build_columns(
    gm: &GraphModel,
    anc: &Vec<Vec<usize>>,
    desc: &Vec<Vec<usize>>,
    focal: usize,
) -> (r: Vec<Vec<String>>)
    requires
        focal < gm@.nodes.len(),
        layers_in_range(anc.deep_view(), gm@.nodes.len()),
        layers_in_range(desc.deep_view(), gm@.nodes.len()),
    ensures
        r.deep_view() == columns_spec(gm@, anc.deep_view(), desc.deep_view(), focal),
{
    let ghost raw_spec = raw_columns(gm@, anc.deep_view(), desc.deep_view(), focal);
    let mut raw: Vec<Vec<String>> = Vec::new();
    push_label_columns(&mut raw, gm, anc);
    let ghost r1 = raw@;
    let mut center = String::from_str("[");
    center.append(gm.node(focal).display_label().as_str());
    center.append("]");
    let mut center_col: Vec<String> = Vec::new();
    center_col.push(center);
    proof {
        assert(center_col.deep_view() =~= seq![center_label(gm@, focal)]);
    }
    raw.push(center_col);
    let ghost r2 = raw@;
    push_label_columns(&mut raw, gm, desc);
    proof {
        assert(raw.deep_view().len() == raw_spec.len());
        assert forall|j: int| 0 <= j < raw_spec.len() implies #[trigger] raw.deep_view()[j]
            == raw_spec[j] by {
            assert(raw.deep_view()[j] == raw@[j].deep_view());
            if j < anc.deep_view().len() {
                assert(raw@[j] == r2[j]);
                assert(r2[j] == r1[j]);
                assert(raw_spec[j] == layer_labels(gm@, anc.deep_view()[j]));
                assert(r1[0 + j].deep_view() == layer_labels(gm@, anc.deep_view()[j]));
            } else if j == anc.deep_view().len() {
                assert(raw@[j] == r2[j]);
                assert(raw_spec[j] == seq![center_label(gm@, focal)]);
            } else {
                let t = j - anc.deep_view().len() - 1;
                assert(raw@[r2.len() + t].deep_view() == layer_labels(gm@, desc.deep_view()[t]));
                assert(r2.len() + t == j);
                assert(raw_spec[j] == layer_labels(gm@, desc.deep_view()[t]));
            }
        }
        assert(raw.deep_view() =~= raw_spec);
    }
    let h = max_height(&raw);
    proof {
        assert(h as nat == grid_height(raw_spec));
    }
    let mut out: Vec<Vec<String>> = Vec::new();
    let ghost total = raw.deep_view();
    let ghost mut done: int = 0;
    proof {
        assert(raw.deep_view() =~= total.subrange(0, total.len() as int));
    }
    while raw.len() > 0
        invariant
            0 <= done <= total.len(),
            raw.deep_view() == total.subrange(done, total.len() as int),
            out.deep_view().len() == done,
            h as nat == grid_height(raw_spec),
            total == raw_spec,
            forall|j: int| 0 <= j < total.len() ==> (#[trigger] total[j]).len() <= h as nat,
            forall|j: int|
                0 <= j < done ==> #[trigger] out.deep_view()[j] == pad_col(total[j], h as nat),
        decreases raw.len(),
    {
        let ghost pre_vec = raw@;
        let ghost pre_dv = raw.deep_view();
        let mut col = raw.remove(0);
        proof {
            assert(pre_dv == total.subrange(done, total.len() as int));
            assert(pre_dv.len() == total.len() - done);
            assert(pre_dv.len() == pre_vec.len());
            assert(total.subrange(done, total.len() as int)[0] == total[done]);
            assert(col == pre_vec[0]);
            assert(pre_dv[0] == pre_vec[0].deep_view());
            assert(col.deep_view() == total[done]);
            assert forall|i: int| 0 <= i < raw.deep_view().len() implies raw.deep_view()[i]
                == total[done + 1 + i] by {
                assert(raw@[i] == pre_vec[i + 1]);
                assert(raw.deep_view()[i] == raw@[i].deep_view());
                assert(pre_dv[i + 1] == pre_vec[i + 1].deep_view());
                assert(total.subrange(done, total.len() as int)[i + 1] == total[done + 1 + i]);
                assert(pre_dv[i + 1] == total[done + 1 + i]);
            }
            assert(raw.deep_view() =~= total.subrange(done + 1, total.len() as int));
            assert(total[done].len() <= h as nat);
        }
        let ghost col0 = col.deep_view();
        while col.len() < h
            invariant
                col0.len() <= h as nat,
                col0.len() <= col.deep_view().len() <= h as nat,
                col.deep_view().len() == col@.len(),
                forall|r0: int| 0 <= r0 < col0.len() ==> #[trigger] col.deep_view()[r0] == col0[r0],
                forall|r0: int|
                    col0.len() <= r0 < col.deep_view().len() ==> #[trigger] col.deep_view()[r0]
                        == Seq::<char>::empty(),
            decreases h - col.len(),
        {
            let ghost pre_c = col.deep_view();
            let ghost pre_cv = col@;
            col.push(String::new());
            proof {
                assert forall|r0: int| 0 <= r0 < col.deep_view().len() implies
                    #[trigger] col.deep_view()[r0] == pre_c.push(Seq::<char>::empty())[r0] by {
                    assert(col.deep_view()[r0] == col@[r0].deep_view());
                    if r0 < pre_c.len() {
                        assert(col@[r0] == pre_cv[r0]);
                        assert(pre_c[r0] == pre_cv[r0].deep_view());
                    } else {
                        assert(col@[r0]@ =~= Seq::<char>::empty());
                    }
                }
            }
        }
        proof {
            assert(col.deep_view().len() == h as nat);
            assert(col.deep_view() =~= pad_col(total[done], h as nat));
        }
        let ghost pre_out = out.deep_view();
        let ghost pre_out_vec = out@;
        let ghost col_snapshot = col;
        out.push(col);
        proof {
            done = done + 1;
            assert forall|j: int| 0 <= j < out.deep_view().len() implies out.deep_view()[j]
                == pre_out.push(col_snapshot.deep_view())[j] by {
                assert(out.deep_view()[j] == out@[j].deep_view());
                if j < pre_out.len() {
                    assert(out@[j] == pre_out_vec[j]);
                    assert(pre_out[j] == pre_out_vec[j].deep_view());
                } else {
                    assert(out@[j] == col_snapshot);
                }
            }
        }
    }
    proof {
        assert(done == total.len());
        assert(out.deep_view() =~= columns_spec(gm@, anc.deep_view(), desc.deep_view(), focal));
    }
    out
}

/// The height of the tallest column, at least one.
fn max_height(cols: &Vec<Vec<String>>) -> (h: usize)
    ensures
        h as nat == grid_height(cols.deep_view()),
        forall|j: int| 0 <= j < cols.deep_view().len() ==> (#[trigger] cols.deep_view()[j]).len() <= h as nat,
{
    let ghost dv = cols.deep_view();
    let n = cols.len();
    let mut h: usize = 1;
    let mut k: usize = 0;
    proof {
        assert(dv.subrange(0, 0) =~= Seq::<Seq<Seq<char>>>::empty());
    }
    while k < n
        invariant
            k <= n,
            n == cols@.len(),
            dv == cols.deep_view(),
            dv.len() == n,
            h as nat == grid_height(dv.subrange(0, k as int)),
            forall|j: int| 0 <= j < k ==> (#[trigger] dv[j]).len() <= h as nat,
        decreases n - k,
    {
        let l = cols[k].len();
        proof {
            assert(dv[k as int] == cols@[k as int].deep_view());
            assert(dv[k as int].len() == cols@[k as int]@.len());
            assert(dv.subrange(0, k + 1).drop_last() =~= dv.subrange(0, k as int));
            assert(dv.subrange(0, k + 1).last() == dv[k as int]);
        }
        if l > h {
            h = l;
        }
        k += 1;
    }
    proof {
        assert(dv.subrange(0, n as int) =~= dv);
    }
    h
}

} // verus!
