//! The occlusion sweep: which layers can still be seen under the ones above.
//!
//! Layers come bottommost first. A layer is visible when at least one canvas
//! pixel of its opaque footprint is in the footprint of no later layer.
//! Whether a later layer is itself visible does not matter: it covers what
//! lies under it either way. A layer with an empty footprint is never
//! visible.

use crate::layer::Layer;
use vstd::prelude::*;

verus! {

/// The opaque footprints of a list of layers, in the order of the layers.
pub open spec fn footprints(layers: Seq<Layer>) -> Seq<Seq<usize>> {
    Seq::new(layers.len(), |i: int| layers[i].opaque_indices@)
}

/// Whether some layer above layer `i` has the canvas pixel `idx` in its
/// footprint.
pub open spec fn covered_above(fps: Seq<Seq<usize>>, i: int, idx: usize) -> bool {
    exists|j: int| i < j < fps.len() && (#[trigger] fps[j]).contains(idx)
}

/// Whether layer `i` has a pixel in its footprint that no layer above it
/// covers.
pub open spec fn is_visible(fps: Seq<Seq<usize>>, i: int) -> bool {
    exists|k: int| 0 <= k < fps[i].len() && !covered_above(fps, i, #[trigger] fps[i][k])
}

/// One flag for each layer: whether it is visible.
pub open spec fn visible_flags(fps: Seq<Seq<usize>>) -> Seq<bool> {
    Seq::new(fps.len(), |i: int| is_visible(fps, i))
}

/// Every index of every footprint is below `canvas_len`.
pub open spec fn within_canvas(fps: Seq<Seq<usize>>, canvas_len: nat) -> bool {
    forall|i: int, k: int|
        0 <= i < fps.len() && 0 <= k < fps[i].len() ==> (#[trigger] fps[i][k]) < canvas_len
}

/// A layer whose opaque footprint lies wholly within the footprints of the
/// layers above it is not visible.
pub proof fn lemma_covered_layer_is_hidden(fps: Seq<Seq<usize>>, i: int)
    requires
        0 <= i < fps.len(),
        forall|k: int| 0 <= k < fps[i].len() ==> covered_above(fps, i, #[trigger] fps[i][k]),
    ensures
        !is_visible(fps, i),
        !visible_flags(fps)[i],
{
}

/// A layer that paints no pixel of the canvas is not visible.
pub proof fn lemma_empty_footprint_is_hidden(fps: Seq<Seq<usize>>, i: int)
    requires
        0 <= i < fps.len(),
        fps[i].len() == 0,
    ensures
        !is_visible(fps, i),
        !visible_flags(fps)[i],
{
}

/// The topmost layer is visible exactly when it paints a pixel of the canvas.
pub proof fn lemma_topmost_layer(fps: Seq<Seq<usize>>)
    requires
        fps.len() > 0,
    ensures
        is_visible(fps, fps.len() - 1) <==> fps[fps.len() - 1].len() > 0,
{
    let t = fps.len() - 1;
    if fps[t].len() > 0 {
        assert(!covered_above(fps, t, fps[t][0]));
    }
}

/// What the coverage mask holds when the sweep has handled the layers from
/// `i` up: the pixels in the footprint of one of them.
spec fn mask_matches(covered: Seq<bool>, fps: Seq<Seq<usize>>, i: int) -> bool {
    forall|p: int|
        0 <= p < covered.len() ==> (#[trigger] covered[p] <==> covered_above(fps, i - 1, p as usize))
}

/// Sweeps the layers from the topmost down and tells, for each, whether it
/// is visible. `canvas_len` is the number of pixels of the canvas.
pub fn visibility(layers: &Vec<Layer>, canvas_len: usize) -> (visible: Vec<bool>)
    requires
        within_canvas(footprints(layers@), canvas_len as nat),
    ensures
        visible@ == visible_flags(footprints(layers@)),
{
    let n = layers.len();
    let ghost fps = footprints(layers@);
    let mut visible: Vec<bool> = vec![false; n];
    let mut covered: Vec<bool> = vec![false; canvas_len];
    let mut i: usize = n;
    while i > 0
        invariant
            n == layers.len(),
            fps == footprints(layers@),
            within_canvas(fps, canvas_len as nat),
            i <= n,
            visible.len() == n,
            covered.len() == canvas_len,
            mask_matches(covered@, fps, i as int),
            forall|j: int| i <= j < n ==> visible[j] == is_visible(fps, j),
        decreases i,
    {
        let t: usize = i - 1;
        let layer = &layers[t];
        let m = layer.opaque_indices.len();
        assert(fps[t as int] == layer.opaque_indices@);

        let mut seen = false;
        let mut k: usize = 0;
        while k < m && !seen
            invariant
                fps[t as int] == layer.opaque_indices@,
                m == layer.opaque_indices.len(),
                0 <= t < fps.len(),
                within_canvas(fps, canvas_len as nat),
                covered.len() == canvas_len,
                mask_matches(covered@, fps, t + 1),
                k <= m,
                !seen ==> forall|q: int| 0 <= q < k ==> covered_above(fps, t as int, #[trigger] fps[t as int][q]),
                seen ==> is_visible(fps, t as int),
            decreases m - k,
        {
            let idx = layer.opaque_indices[k];
            assert(fps[t as int][k as int] == idx);
            if !covered[idx] {
                seen = true;
            }
            k = k + 1;
        }
        assert(seen == is_visible(fps, t as int));
        visible.set(t, seen);

        let mut k: usize = 0;
        while k < m
            invariant
                fps[t as int] == layer.opaque_indices@,
                m == layer.opaque_indices.len(),
                0 <= t < fps.len(),
                within_canvas(fps, canvas_len as nat),
                covered.len() == canvas_len,
                k <= m,
                forall|p: int|
                    0 <= p < covered.len() ==> (#[trigger] covered[p] <==> covered_above(
                        fps,
                        t as int,
                        p as usize,
                    ) || fps[t as int].subrange(0, k as int).contains(p as usize)),
            decreases m - k,
        {
            let idx = layer.opaque_indices[k];
            assert(fps[t as int][k as int] == idx);
            let ghost before = covered@;
            covered.set(idx, true);
            proof {
                let fp = fps[t as int];
                assert(fp.subrange(0, k + 1) =~= fp.subrange(0, k as int).push(idx));
                assert forall|p: int| 0 <= p < covered.len() implies (#[trigger] covered[p]
                    <==> covered_above(fps, t as int, p as usize) || fp.subrange(
                    0,
                    k + 1,
                ).contains(p as usize)) by {
                    let grown = fp.subrange(0, k as int).push(idx);
                    if p == idx {
                        assert(grown[k as int] == idx);
                    } else {
                        assert(covered[p] == before[p]);
                        if fp.subrange(0, k as int).contains(p as usize) {
                            let q = choose|q: int|
                                0 <= q < k && fp.subrange(0, k as int)[q] == p as usize;
                            assert(grown[q] == p as usize);
                        }
                        if grown.contains(p as usize) {
                            let q = choose|q: int| 0 <= q < grown.len() && grown[q] == p as usize;
                            assert(fp.subrange(0, k as int)[q] == p as usize);
                        }
                    }
                }
            }
            k = k + 1;
        }
        proof {
            let fp = fps[t as int];
            assert(fp.subrange(0, m as int) =~= fp);
            assert forall|p: int| 0 <= p < covered.len() implies (#[trigger] covered[p]
                <==> covered_above(fps, t - 1, p as usize)) by {
                if covered_above(fps, t - 1, p as usize) {
                    let j = choose|j: int| t - 1 < j < fps.len() && (#[trigger] fps[j]).contains(p as usize);
                    if j > t {
                        assert(covered_above(fps, t as int, p as usize));
                    }
                }
                if fp.contains(p as usize) {
                    assert(fps[t as int].contains(p as usize));
                }
            }
        }
        i = t;
    }
    assert(visible@ =~= visible_flags(fps));
    visible
}

} // verus!
