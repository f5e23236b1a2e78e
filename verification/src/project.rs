//! The spatial layout projector: a deterministic grid that places the
//! ancestor layers left of a fixed center column, the focal node at the
//! center, and the descendant layers to the right, each layer's nodes
//! stacked vertically around the canvas midline.
//!
//! Coordinates are integers in half-units of the 100 x 50 canvas: a pair
//! `(x2, y2)` stands for the point `(x2 / 2, y2 / 2)`. Entries are listed
//! in placement order; where one node is placed more than once (possible
//! only through a cycle), the later entry is the one that counts.

use vstd::prelude::*;

verus! {

/// The positions of one layer's nodes in a column at `x2`: a layer of
/// `k` nodes occupies `k` consecutive vertical slots centered on the
/// midline, one unit (two half-units) apart.
pub open spec fn layer_positions(layer: Seq<usize>, x2: int) -> Seq<(usize, int, int)> {
    Seq::new(layer.len(), |i: int| (layer[i], x2, 50 - layer.len() + 2 * i))
}

/// The positions of one side's layers: the first layer in a column at
/// `x0`, each following layer `dx` further along.
pub open spec fn side_positions(layers: Seq<Seq<usize>>, x0: int, dx: int) -> Seq<
    (usize, int, int),
>
    decreases layers.len(),
{
    if layers.len() == 0 {
        Seq::empty()
    } else {
        side_positions(layers.drop_last(), x0, dx) + layer_positions(
            layers.last(),
            x0 + dx * (layers.len() - 1),
        )
    }
}

/// The whole placement: ancestor layers (outermost first) from x = 10
/// in steps of 7.5 units, the focal node at (50, 25), descendant layers
/// from x = 70 in the same steps — all in half-units.
pub open spec fn project_spec(anc: Seq<Seq<usize>>, desc: Seq<Seq<usize>>, focal: usize) -> Seq<
    (usize, int, int),
> {
    side_positions(anc, 20, 30) + seq![(focal, 100int, 50int)] + side_positions(desc, 140, 30)
}

/// Appends one side's positions to `out`, leaving what is already there
/// alone.
fn push_side(out: &mut Vec<(usize, i128, i128)>, layers: &Vec<Vec<usize>>, x0: i128, dx: i128)
    requires
        0 <= x0 <= 1000,
        0 <= dx <= 1000,
    ensures
        final(out)@.len() == old(out)@.len() + side_positions(
            layers.deep_view(),
            x0 as int,
            dx as int,
        ).len(),
        forall|j: int| 0 <= j < old(out)@.len() ==> final(out)@[j] == old(out)@[j],
        forall|j: int|
            0 <= j < side_positions(layers.deep_view(), x0 as int, dx as int).len() ==> (
            #[trigger] final(out)@[old(out)@.len() + j]).0 == side_positions(
                layers.deep_view(),
                x0 as int,
                dx as int,
            )[j].0 && final(out)@[old(out)@.len() + j].1 as int == side_positions(
                layers.deep_view(),
                x0 as int,
                dx as int,
            )[j].1 && final(out)@[old(out)@.len() + j].2 as int == side_positions(
                layers.deep_view(),
                x0 as int,
                dx as int,
            )[j].2,
{
    let ghost base: int = out@.len() as int;
    let ghost dv = layers.deep_view();
    let kn = layers.len();
    proof {
        assert(dv.len() == layers@.len());
        assert(dv.subrange(0, 0) =~= Seq::<Seq<usize>>::empty());
    }
    let mut k: usize = 0;
    while k < kn
        invariant
            k <= kn,
            kn == layers@.len(),
            dv == layers.deep_view(),
            dv.len() == kn,
            0 <= x0 <= 1000,
            0 <= dx <= 1000,
            base == old(out)@.len(),
            out@.len() == base + side_positions(dv.subrange(0, k as int), x0 as int, dx as int).len(),
            forall|j: int| 0 <= j < base ==> out@[j] == old(out)@[j],
            forall|j: int|
                0 <= j < side_positions(dv.subrange(0, k as int), x0 as int, dx as int).len()
                    ==> out@[base + j].0 == side_positions(
                    dv.subrange(0, k as int),
                    x0 as int,
                    dx as int,
                )[j].0 && out@[base + j].1 as int == side_positions(
                    dv.subrange(0, k as int),
                    x0 as int,
                    dx as int,
                )[j].1 && out@[base + j].2 as int == side_positions(
                    dv.subrange(0, k as int),
                    x0 as int,
                    dx as int,
                )[j].2,
        decreases kn - k,
    {
        let layer: &Vec<usize> = &layers[k];
        proof {
            assert(layer.deep_view() =~= layer@);
            assert(layer@ == dv[k as int]);
        }
        proof {
            assert(0 <= dx * (k as i128) <= 1000 * 0xffff_ffff_ffff_ffffi128) by (nonlinear_arith)
                requires
                    0 <= dx <= 1000,
                    0 <= (k as i128) <= 0xffff_ffff_ffff_ffffi128,
            ;
        }
        let x2: i128 = x0 + dx * (k as i128);
        let ln = layer.len();
        let ghost snap = out@;
        let mut i: usize = 0;
        while i < ln
            invariant
                i <= ln,
                ln == layer@.len(),
                out@.len() == snap.len() + i,
                x2 == x0 + dx * (k as int),
                forall|j: int| 0 <= j < snap.len() ==> out@[j] == snap[j],
                forall|j: int|
                    0 <= j < i ==> out@[snap.len() + j].0 == layer@[j] && out@[snap.len()
                        + j].1 == x2 && out@[snap.len() + j].2 as int == 50 - ln + 2 * j,
            decreases ln - i,
        {
            let y2: i128 = 50 - (ln as i128) + 2 * (i as i128);
            out.push((layer[i], x2, y2));
            i += 1;
        }
        proof {
            assert(dv.subrange(0, k + 1).drop_last() =~= dv.subrange(0, k as int));
            assert(dv.subrange(0, k + 1).last() == dv[k as int]);
        }
        k += 1;
    }
    proof {
        assert(dv.subrange(0, kn as int) =~= dv);
    }
}

/// Projects a layered neighborhood onto the canvas, in half-units.
pub fn project(anc: &Vec<Vec<usize>>, desc: &Vec<Vec<usize>>, focal: usize) -> (r: Vec<
    (usize, i128, i128),
>)
    ensures
        ({
            let ps = project_spec(anc.deep_view(), desc.deep_view(), focal);
            &&& r@.len() == ps.len()
            &&& forall|k: int|
                0 <= k < ps.len() ==> r@[k].0 == ps[k].0 && r@[k].1 as int == ps[k].1
                    && r@[k].2 as int == ps[k].2
        }),
{
    let ghost a = side_positions(anc.deep_view(), 20, 30);
    let ghost b = side_positions(desc.deep_view(), 140, 30);
    let ghost ps = project_spec(anc.deep_view(), desc.deep_view(), focal);
    let mut out: Vec<(usize, i128, i128)> = Vec::new();
    push_side(&mut out, anc, 20, 30);
    let ghost o1 = out@;
    out.push((focal, 100, 50));
    let ghost o2 = out@;
    push_side(&mut out, desc, 140, 30);
    proof {
        assert(ps.len() == a.len() + 1 + b.len());
        assert forall|k: int|
            0 <= k < ps.len() implies out@[k].0 == ps[k].0 && out@[k].1 as int == ps[k].1
            && out@[k].2 as int == ps[k].2 by {
            if k < a.len() {
                assert(ps[k] == a[k]);
                assert(out@[k] == o2[k]);
                assert(o2[k] == o1[k]);
                assert(o1[0 + k].0 == a[k].0);
                assert(o1[0 + k].1 as int == a[k].1);
                assert(o1[0 + k].2 as int == a[k].2);
            } else if k == a.len() {
                assert(ps[k] == (focal, 100int, 50int));
                assert(out@[k] == o2[k]);
                assert(o2[k] == (focal, 100i128, 50i128));
            } else {
                let j = k - a.len() - 1;
                assert(ps[k] == b[j]);
                assert(o2.len() == a.len() + 1);
                assert(out@[o2.len() + j].0 == b[j].0);
                assert(out@[o2.len() + j].1 as int == b[j].1);
                assert(out@[o2.len() + j].2 as int == b[j].2);
                assert(o2.len() + j == k);
            }
        }
    }
    out
}

} // verus!
