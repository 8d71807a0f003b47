use vstd::prelude::*;

use crate::network::{
    entry_or_empty, forward_trace, layer_values, node_value, overlay, overlay_layer,
    overlay_weights, same_shape, well_formed,
};

verus! {

/// `node` gives one result for one pair of value and weight vectors.
pub open spec fn deterministic<W, F: Fn(&[W], &[W]) -> W>(node: F) -> bool {
    forall|a: &[W], w: &[W], r1: W, r2: W|
        #[trigger] node.ensures((a, w), r1) && #[trigger] node.ensures((a, w), r2) ==> r1 == r2
}

/// Every value that `node` can return satisfies `pred`.
pub open spec fn node_range<W, F: Fn(&[W], &[W]) -> W>(node: F, pred: spec_fn(W) -> bool) -> bool {
    forall|a: &[W], w: &[W], r: W| #[trigger] node.ensures((a, w), r) ==> pred(r)
}

proof fn lemma_node_values_agree<W, F: Fn(&[W], &[W]) -> W>(
    node: F,
    values: Seq<W>,
    weights: Seq<W>,
    r1: W,
    r2: W,
)
    requires
        deterministic(node),
        node_value(node, values, weights, r1),
        node_value(node, values, weights, r2),
    ensures
        r1 == r2,
{
    let (a1, w1) = choose|a: &[W], w: &[W]|
        a@ == values && w@ == weights && #[trigger] node.ensures((a, w), r1);
    let (a2, w2) = choose|a: &[W], w: &[W]|
        a@ == values && w@ == weights && #[trigger] node.ensures((a, w), r2);
    assert(a1 =~= a2);
    assert(w1 =~= w2);
}

proof fn lemma_traces_agree_up_to<W, F: Fn(&[W], &[W]) -> W>(
    node: F,
    net: Seq<Seq<Seq<W>>>,
    input: Seq<W>,
    t1: Seq<Seq<W>>,
    t2: Seq<Seq<W>>,
    n: int,
)
    requires
        deterministic(node),
        forward_trace(node, net, input, t1),
        forward_trace(node, net, input, t2),
        0 <= n <= net.len(),
    ensures
        t1[n] == t2[n],
    decreases n,
{
    if n > 0 {
        lemma_traces_agree_up_to(node, net, input, t1, t2, n - 1);
        assert(layer_values(node, t1[n - 1], net[n - 1], t1[n]));
        assert(layer_values(node, t2[n - 1], net[n - 1], t2[n]));
        assert forall|j: int| 0 <= j < t1[n].len() implies t1[n][j] == t2[n][j] by {
            lemma_node_values_agree(node, t1[n - 1], net[n - 1][j], t1[n][j], t2[n][j]);
        }
        assert(t1[n] =~= t2[n]);
    }
}

/// Evaluation is a function of the network and the input: with a node
/// function that gives one result per pair of arguments, two evaluations of
/// one network on one input pass through the same values and give the same
/// output, so running a network twice on the same input returns the same
/// result.
pub proof fn lemma_run_deterministic<W, F: Fn(&[W], &[W]) -> W>(
    node: F,
    net: Seq<Seq<Seq<W>>>,
    input: Seq<W>,
    t1: Seq<Seq<W>>,
    t2: Seq<Seq<W>>,
)
    requires
        deterministic(node),
        forward_trace(node, net, input, t1),
        forward_trace(node, net, input, t2),
    ensures
        t1 == t2,
        t1.last() == t2.last(),
{
    assert forall|i: int| 0 <= i < t1.len() implies t1[i] == t2[i] by {
        lemma_traces_agree_up_to(node, net, input, t1, t2, i);
    }
    assert(t1 =~= t2);
}

/// The output of a network lies in the range of its node function: if every
/// value that `node` can return satisfies `pred`, so does every value that a
/// well-formed network outputs (with a bipolar sigmoid as the last step of a
/// node, the open interval from -1 to 1).
pub proof fn lemma_outputs_in_node_range<W, F: Fn(&[W], &[W]) -> W>(
    node: F,
    net: Seq<Seq<Seq<W>>>,
    input: Seq<W>,
    trace: Seq<Seq<W>>,
    pred: spec_fn(W) -> bool,
)
    requires
        well_formed(net),
        forward_trace(node, net, input, trace),
        node_range(node, pred),
    ensures
        forall|k: int| 0 <= k < trace.last().len() ==> pred(#[trigger] trace.last()[k]),
{
    let n = net.len() - 1;
    assert(layer_values(node, trace[n], net[n], trace[n + 1]));
    assert forall|k: int| 0 <= k < trace.last().len() implies pred(#[trigger] trace.last()[k]) by {
        assert(node_value(node, trace[n], net[n][k], trace[n + 1][k]));
    }
}

/// Breeding with certainty takes every weight from the mother: overlaying a
/// network with another of the same shape gives the other.
pub proof fn lemma_breed_always_gives_mother<W>(father: Seq<Seq<Seq<W>>>, mother: Seq<Seq<Seq<W>>>)
    requires
        same_shape(father, mother),
    ensures
        overlay(father, mother) == mother,
{
    assert forall|i: int| 0 <= i < father.len() implies #[trigger] overlay(father, mother)[i] == mother[i] by {
        assert forall|j: int| 0 <= j < father[i].len() implies #[trigger] overlay_layer(
            father[i],
            mother[i],
        )[j] == mother[i][j] by {
            assert(entry_or_empty(mother[i], j) == mother[i][j]);
            assert(overlay_weights(father[i][j], mother[i][j]) =~= mother[i][j]);
        }
        assert(entry_or_empty(mother, i) == mother[i]);
        assert(overlay_layer(father[i], mother[i]) =~= mother[i]);
    }
    assert(overlay(father, mother) =~= mother);
}

} // verus!
