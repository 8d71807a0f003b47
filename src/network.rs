use vstd::prelude::*;

use crate::chance::Chance;

verus! {

/// One neuron: a weight for each input value, then the bias weight.
#[derive(Clone, Debug)]
pub struct Node<W> {
    weights: Vec<W>,
}

/// The nodes of one layer, all reading the same number of input values.
#[derive(Clone, Debug)]
pub struct Layer<W> {
    nodes: Vec<Node<W>>,
}

/// A feedforward network: its computing layers in order. The weights are of
/// any type `W`; what a node computes from them is given to `run`.
#[derive(Clone, Debug)]
pub struct Network<W> {
    layers: Vec<Layer<W>>,
}

/// Why a network could not be built.
#[derive(Clone, Copy, Debug, PartialEq, Eq)]
pub enum CreationError {
    /// The topology has fewer than two sizes, or a size of zero.
    NotEnoughLayers,
}

/// Why a network could not be evaluated.
#[derive(Clone, Copy, Debug, PartialEq, Eq)]
pub enum RunError {
    /// The input does not have as many values as the network reads.
    WrongInputCount,
}

/// A topology `[input, hidden..., output]` that a network can be built from:
/// at least an input size and one computing layer, and no size zero.
pub open spec fn valid_topology(sizes: Seq<usize>) -> bool {
    sizes.len() >= 2 && forall|i: int| 0 <= i < sizes.len() ==> #[trigger] sizes[i] != 0
}

/// The weight vectors of a network are laid out as the topology `sizes` asks:
/// one layer per size after the first, whose nodes each hold one weight per
/// value of the layer before (the input, for the first layer) and a bias.
pub open spec fn has_shape<W>(net: Seq<Seq<Seq<W>>>, sizes: Seq<usize>) -> bool {
    &&& net.len() + 1 == sizes.len()
    &&& forall|i: int| 0 <= i < net.len() ==> #[trigger] net[i].len() == sizes[i + 1]
    &&& forall|i: int, j: int|
        0 <= i < net.len() && 0 <= j < net[i].len() ==> #[trigger] net[i][j].len() == sizes[i] + 1
}

/// The number of input values that a network reads.
pub open spec fn input_size<W>(net: Seq<Seq<Seq<W>>>) -> int {
    net[0][0].len() - 1
}

/// A network of at least one layer, no layer empty, at least one input value,
/// the nodes of the first layer reading the input and those of every later
/// layer reading the values of the layer before, each with a bias weight.
pub open spec fn well_formed<W>(net: Seq<Seq<Seq<W>>>) -> bool {
    &&& net.len() >= 1
    &&& forall|i: int| 0 <= i < net.len() ==> #[trigger] net[i].len() >= 1
    &&& input_size(net) >= 1
    &&& forall|j: int| 0 <= j < net[0].len() ==> #[trigger] net[0][j].len() == input_size(net) + 1
    &&& forall|i: int, j: int|
        1 <= i < net.len() && 0 <= j < net[i].len() ==> #[trigger] net[i][j].len() == net[i
            - 1].len() + 1
}

/// Every weight of the network satisfies `pred`.
pub open spec fn every_weight<W>(net: Seq<Seq<Seq<W>>>, pred: spec_fn(W) -> bool) -> bool {
    forall|i: int, j: int, k: int|
        0 <= i < net.len() && 0 <= j < net[i].len() && 0 <= k < net[i][j].len() ==> pred(
            #[trigger] net[i][j][k],
        )
}

/// Two networks have the same layers, nodes and weight counts.
pub open spec fn same_shape<T, U>(a: Seq<Seq<Seq<T>>>, b: Seq<Seq<Seq<U>>>) -> bool {
    &&& a.len() == b.len()
    &&& forall|i: int| 0 <= i < a.len() ==> #[trigger] a[i].len() == b[i].len()
    &&& forall|i: int, j: int|
        0 <= i < a.len() && 0 <= j < a[i].len() ==> #[trigger] a[i][j].len() == b[i][j].len()
}

/// `r` is a value that `node` returned on the values `values` and the
/// weights `weights`.
pub open spec fn node_value<W, F: Fn(&[W], &[W]) -> W>(
    node: F,
    values: Seq<W>,
    weights: Seq<W>,
    r: W,
) -> bool {
    exists|a: &[W], w: &[W]| a@ == values && w@ == weights && #[trigger] node.ensures((a, w), r)
}

/// `out` is what a layer of weight vectors `layer` computes from the values
/// `values`: one value per node, in order.
pub open spec fn layer_values<W, F: Fn(&[W], &[W]) -> W>(
    node: F,
    values: Seq<W>,
    layer: Seq<Seq<W>>,
    out: Seq<W>,
) -> bool {
    &&& out.len() == layer.len()
    &&& forall|j: int| 0 <= j < layer.len() ==> node_value(node, values, layer[j], #[trigger] out[j])
}

/// `trace` is a forward pass through `net` from `input`: it starts with the
/// input, and each later entry is what the next layer computes from the entry
/// before it. The last entry is the network's output.
pub open spec fn forward_trace<W, F: Fn(&[W], &[W]) -> W>(
    node: F,
    net: Seq<Seq<Seq<W>>>,
    input: Seq<W>,
    trace: Seq<Seq<W>>,
) -> bool {
    &&& trace.len() == net.len() + 1
    &&& trace[0] == input
    &&& forall|i: int| 0 <= i < net.len() ==> layer_values(node, #[trigger] trace[i], net[i], trace[i + 1])
}

/// `node` accepts every value vector together with a weight vector one longer.
pub open spec fn accepts_nodes<W, F: Fn(&[W], &[W]) -> W>(node: F) -> bool {
    forall|a: &[W], w: &[W]| a@.len() + 1 == w@.len() ==> #[trigger] node.requires((a, w))
}

/// The `j`-th entry of `s`, or an empty sequence past its end.
pub open spec fn entry_or_empty<T>(s: Seq<Seq<T>>, j: int) -> Seq<T> {
    if 0 <= j < s.len() {
        s[j]
    } else {
        Seq::empty()
    }
}

/// The weights `f` with each one that `m` also has a position for replaced by
/// `m`'s.
pub open spec fn overlay_weights<W>(f: Seq<W>, m: Seq<W>) -> Seq<W> {
    Seq::new(f.len(), |k: int| if k < m.len() { m[k] } else { f[k] })
}

/// The layer `f` overlaid node by node with the layer `m`.
pub open spec fn overlay_layer<W>(f: Seq<Seq<W>>, m: Seq<Seq<W>>) -> Seq<Seq<W>> {
    Seq::new(f.len(), |j: int| overlay_weights(f[j], entry_or_empty(m, j)))
}

/// The network `f` overlaid layer by layer with the network `m`: shaped like
/// `f`, holding `m`'s weight wherever `m` has that position.
pub open spec fn overlay<W>(f: Seq<Seq<Seq<W>>>, m: Seq<Seq<Seq<W>>>) -> Seq<Seq<Seq<W>>> {
    Seq::new(f.len(), |i: int| overlay_layer(f[i], entry_or_empty(m, i)))
}

/// The weights `f` in which each position that `mask` marks, and that `m`
/// also has, holds `m`'s weight.
pub open spec fn masked_weights<W>(f: Seq<W>, m: Seq<W>, mask: Seq<bool>) -> Seq<W> {
    Seq::new(f.len(), |k: int| if k < m.len() && mask[k] { m[k] } else { f[k] })
}

/// The layer `f` overlaid node by node with the layer `m` where `mask` marks.
pub open spec fn masked_layer<W>(f: Seq<Seq<W>>, m: Seq<Seq<W>>, mask: Seq<Seq<bool>>) -> Seq<Seq<W>> {
    Seq::new(f.len(), |j: int| masked_weights(f[j], entry_or_empty(m, j), mask[j]))
}

/// The network `f` overlaid with the network `m` at the positions that `mask`
/// marks: shaped like `f`, holding `m`'s weight at each marked position that
/// `m` has, and `f`'s everywhere else.
pub open spec fn masked_overlay<W>(
    f: Seq<Seq<Seq<W>>>,
    m: Seq<Seq<Seq<W>>>,
    mask: Seq<Seq<Seq<bool>>>,
) -> Seq<Seq<Seq<W>>> {
    Seq::new(f.len(), |i: int| masked_layer(f[i], entry_or_empty(m, i), mask[i]))
}

/// The two layers have the same number of nodes, node by node of the same
/// number of weights.
pub open spec fn same_layer_shape<T, U>(a: Seq<Seq<T>>, b: Seq<Seq<U>>) -> bool {
    &&& a.len() == b.len()
    &&& forall|j: int| 0 <= j < a.len() ==> #[trigger] a[j].len() == b[j].len()
}

/// A masked overlay is shaped like the network it overlays.
proof fn lemma_masked_overlay_shape<W>(f: Seq<Seq<Seq<W>>>, m: Seq<Seq<Seq<W>>>, mask: Seq<Seq<Seq<bool>>>)
    ensures
        same_shape(masked_overlay(f, m, mask), f),
{
    let r = masked_overlay(f, m, mask);
    assert forall|i: int, j: int| 0 <= i < r.len() && 0 <= j < r[i].len() implies #[trigger] r[i][j].len()
        == f[i][j].len() by {
        assert(r[i] == masked_layer(f[i], entry_or_empty(m, i), mask[i]));
    }
}

/// With every position marked, a masked overlay is the plain overlay; with
/// none marked, it is the overlaid network itself.
proof fn lemma_masked_overlay_extremes<W>(f: Seq<Seq<Seq<W>>>, m: Seq<Seq<Seq<W>>>, mask: Seq<Seq<Seq<bool>>>)
    requires
        same_shape(mask, f),
    ensures
        every_weight(mask, |b: bool| b) ==> masked_overlay(f, m, mask) == overlay(f, m),
        every_weight(mask, |b: bool| !b) ==> masked_overlay(f, m, mask) == f,
{
    let r = masked_overlay(f, m, mask);
    if every_weight(mask, |b: bool| b) {
        assert forall|i: int| 0 <= i < f.len() implies #[trigger] r[i] == overlay(f, m)[i] by {
            assert forall|j: int| 0 <= j < f[i].len() implies #[trigger] r[i][j] == overlay(f, m)[i][j] by {
                assert forall|k: int| 0 <= k < f[i][j].len() implies mask[i][j][k] by {
                    assert((|b: bool| b)(mask[i][j][k]));
                }
                assert(r[i][j] =~= overlay(f, m)[i][j]);
            }
            assert(r[i] =~= overlay(f, m)[i]);
        }
        assert(r =~= overlay(f, m));
    }
    if every_weight(mask, |b: bool| !b) {
        assert forall|i: int| 0 <= i < f.len() implies #[trigger] r[i] == f[i] by {
            assert forall|j: int| 0 <= j < f[i].len() implies #[trigger] r[i][j] == f[i][j] by {
                assert forall|k: int| 0 <= k < f[i][j].len() implies !mask[i][j][k] by {
                    assert((|b: bool| !b)(mask[i][j][k]));
                }
                assert(r[i][j] =~= f[i][j]);
            }
            assert(r[i] =~= f[i]);
        }
        assert(r =~= f);
    }
}

/// Having the same shape is symmetric.
proof fn lemma_same_shape_symmetric<T, U>(a: Seq<Seq<Seq<T>>>, b: Seq<Seq<Seq<U>>>)
    requires
        same_shape(a, b),
    ensures
        same_shape(b, a),
{
}

/// Well-formedness depends on the shape alone.
proof fn lemma_same_shape_well_formed<W>(a: Seq<Seq<Seq<W>>>, b: Seq<Seq<Seq<W>>>)
    requires
        same_shape(a, b),
    ensures
        well_formed(b) ==> well_formed(a),
{
    if well_formed(b) {
        assert forall|i: int, j: int|
            1 <= i < a.len() && 0 <= j < a[i].len() implies #[trigger] a[i][j].len() == a[i - 1].len() + 1 by {
            assert(b[i][j].len() == b[i - 1].len() + 1);
        }
        assert forall|j: int| 0 <= j < a[0].len() implies #[trigger] a[0][j].len() == input_size(a) + 1 by {
            assert(b[0][j].len() == input_size(b) + 1);
        }
    }
}

impl<W> View for Node<W> {
    type V = Seq<W>;

    closed spec fn view(&self) -> Seq<W> {
        self.weights@
    }
}

impl<W> Node<W> {
    /// A node of `n_weights` weights, each one a value that `draw` returned.
    fn with_weights<F: Fn() -> W>(n_weights: usize, draw: &F) -> (r: Node<W>)
        requires
            draw.requires(()),
        ensures
            r@.len() == n_weights,
            forall|k: int| 0 <= k < n_weights ==> draw.ensures((), #[trigger] r@[k]),
    {
        let mut weights: Vec<W> = Vec::with_capacity(n_weights);
        let mut k: usize = 0;
        while k < n_weights
            invariant
                k <= n_weights,
                weights@.len() == k,
                draw.requires(()),
                forall|m: int| 0 <= m < k ==> draw.ensures((), #[trigger] weights@[m]),
            decreases n_weights - k,
        {
            weights.push(draw());
            k += 1;
        }
        Node { weights }
    }

    /// A copy of this node holding `mother`'s weight at each position that
    /// `mask` marks and `mother` has.
    fn crossed(&self, mother: &[W], mask: &[bool]) -> (r: Node<W>)
        where
            W: Copy,
        requires
            mask@.len() == self@.len(),
        ensures
            r@ == masked_weights(self@, mother@, mask@),
    {
        let mut weights: Vec<W> = Vec::with_capacity(self.weights.len());
        let mut k: usize = 0;
        while k < self.weights.len()
            invariant
                mask@.len() == self@.len(),
                k <= self@.len(),
                weights@.len() == k,
                forall|m: int| 0 <= m < k ==> #[trigger] weights@[m] == masked_weights(self@, mother@, mask@)[m],
            decreases self@.len() - k,
        {
            if k < mother.len() && mask[k] {
                weights.push(mother[k]);
            } else {
                weights.push(self.weights[k]);
            }
            k += 1;
        }
        let r = Node { weights };
        assert(r@ =~= masked_weights(self@, mother@, mask@));
        r
    }

    /// A copy of this node holding a fresh value of `draw` at each position
    /// that `mask` marks.
    fn mutated<F: Fn() -> W>(&self, mask: &[bool], draw: &F) -> (r: Node<W>)
        where
            W: Copy,
        requires
            mask@.len() == self@.len(),
            draw.requires(()),
        ensures
            r@.len() == self@.len(),
            forall|k: int| 0 <= k < self@.len() && mask@[k] ==> draw.ensures((), #[trigger] r@[k]),
            forall|k: int| 0 <= k < self@.len() && !mask@[k] ==> #[trigger] r@[k] == self@[k],
    {
        let mut weights: Vec<W> = Vec::with_capacity(self.weights.len());
        let mut k: usize = 0;
        while k < self.weights.len()
            invariant
                mask@.len() == self@.len(),
                draw.requires(()),
                k <= self@.len(),
                weights@.len() == k,
                forall|m: int| 0 <= m < k && mask@[m] ==> draw.ensures((), #[trigger] weights@[m]),
                forall|m: int| 0 <= m < k && !mask@[m] ==> #[trigger] weights@[m] == self@[m],
            decreases self@.len() - k,
        {
            if mask[k] {
                weights.push(draw());
            } else {
                weights.push(self.weights[k]);
            }
            k += 1;
        }
        Node { weights }
    }
}

impl<W> View for Layer<W> {
    type V = Seq<Seq<W>>;

    closed spec fn view(&self) -> Seq<Seq<W>> {
        Seq::new(self.nodes@.len(), |j: int| self.nodes@[j]@)
    }
}

impl<W> Layer<W> {
    /// A layer of `node_count` nodes of `weight_count` drawn weights each.
    fn new<F: Fn() -> W>(node_count: usize, weight_count: usize, draw: &F) -> (r: Layer<W>)
        requires
            draw.requires(()),
        ensures
            r@.len() == node_count,
            forall|j: int| 0 <= j < node_count ==> (#[trigger] r@[j]).len() == weight_count,
            forall|j: int, k: int|
                0 <= j < node_count && 0 <= k < weight_count ==> draw.ensures((), #[trigger] r@[j][k]),
    {
        let mut nodes: Vec<Node<W>> = Vec::with_capacity(node_count);
        let mut j: usize = 0;
        while j < node_count
            invariant
                j <= node_count,
                nodes@.len() == j,
                draw.requires(()),
                forall|m: int| 0 <= m < j ==> (#[trigger] nodes@[m])@.len() == weight_count,
                forall|m: int, k: int|
                    0 <= m < j && 0 <= k < weight_count ==> draw.ensures((), #[trigger] nodes@[m]@[k]),
            decreases node_count - j,
        {
            nodes.push(Node::with_weights(weight_count, draw));
            j += 1;
        }
        Layer { nodes }
    }

    /// A layer shaped like `shape`, every weight a fresh value of `draw`.
    fn like<V, F: Fn() -> W>(shape: &Layer<V>, draw: &F) -> (r: Layer<W>)
        requires
            draw.requires(()),
        ensures
            same_layer_shape(r@, shape@),
            forall|j: int, k: int|
                0 <= j < r@.len() && 0 <= k < r@[j].len() ==> draw.ensures((), #[trigger] r@[j][k]),
    {
        let mut nodes: Vec<Node<W>> = Vec::with_capacity(shape.nodes.len());
        let mut j: usize = 0;
        while j < shape.nodes.len()
            invariant
                draw.requires(()),
                j <= shape@.len(),
                nodes@.len() == j,
                forall|m: int| 0 <= m < j ==> (#[trigger] nodes@[m])@.len() == shape@[m].len(),
                forall|m: int, k: int|
                    0 <= m < j && 0 <= k < nodes@[m]@.len() ==> draw.ensures((), #[trigger] nodes@[m]@[k]),
            decreases shape@.len() - j,
        {
            nodes.push(Node::with_weights(shape.nodes[j].weights.len(), draw));
            j += 1;
        }
        Layer { nodes }
    }

    /// A copy of this layer crossed node by node with `mother`'s nodes at the
    /// same place, where `mask` marks; a node that `mother` lacks is copied.
    fn crossed(&self, mother: &Layer<W>, mask: &Layer<bool>) -> (r: Layer<W>)
        where
            W: Copy,
        requires
            same_layer_shape(mask@, self@),
        ensures
            r@ == masked_layer(self@, mother@, mask@),
    {
        let no_weights: Vec<W> = Vec::new();
        let mut nodes: Vec<Node<W>> = Vec::with_capacity(self.nodes.len());
        let mut j: usize = 0;
        while j < self.nodes.len()
            invariant
                same_layer_shape(mask@, self@),
                no_weights@ == Seq::<W>::empty(),
                j <= self@.len(),
                nodes@.len() == j,
                forall|m: int| 0 <= m < j ==> (#[trigger] nodes@[m])@ == masked_layer(self@, mother@, mask@)[m],
            decreases self@.len() - j,
        {
            let mother_weights = if j < mother.nodes.len() {
                mother.nodes[j].weights.as_slice()
            } else {
                no_weights.as_slice()
            };
            assert(mother_weights@ == entry_or_empty(mother@, j as int));
            assert(mask@[j as int].len() == self@[j as int].len());
            nodes.push(self.nodes[j].crossed(mother_weights, mask.nodes[j].weights.as_slice()));
            j += 1;
        }
        let r = Layer { nodes };
        assert(r@ =~= masked_layer(self@, mother@, mask@));
        r
    }

    /// A copy of this layer holding a fresh value of `draw` at each position
    /// that `mask` marks.
    fn mutated<F: Fn() -> W>(&self, mask: &Layer<bool>, draw: &F) -> (r: Layer<W>)
        where
            W: Copy,
        requires
            same_layer_shape(mask@, self@),
            draw.requires(()),
        ensures
            same_layer_shape(r@, self@),
            forall|j: int, k: int|
                0 <= j < self@.len() && 0 <= k < self@[j].len() && mask@[j][k] ==> draw.ensures(
                    (),
                    #[trigger] r@[j][k],
                ),
            forall|j: int, k: int|
                0 <= j < self@.len() && 0 <= k < self@[j].len() && !mask@[j][k] ==> #[trigger] r@[j][k]
                    == self@[j][k],
    {
        let mut nodes: Vec<Node<W>> = Vec::with_capacity(self.nodes.len());
        let mut j: usize = 0;
        while j < self.nodes.len()
            invariant
                same_layer_shape(mask@, self@),
                draw.requires(()),
                j <= self@.len(),
                nodes@.len() == j,
                forall|m: int| 0 <= m < j ==> (#[trigger] nodes@[m])@.len() == self@[m].len(),
                forall|m: int, k: int|
                    0 <= m < j && 0 <= k < self@[m].len() && mask@[m][k] ==> draw.ensures(
                        (),
                        #[trigger] nodes@[m]@[k],
                    ),
                forall|m: int, k: int|
                    0 <= m < j && 0 <= k < self@[m].len() && !mask@[m][k] ==> #[trigger] nodes@[m]@[k]
                        == self@[m][k],
            decreases self@.len() - j,
        {
            assert(mask@[j as int].len() == self@[j as int].len());
            nodes.push(self.nodes[j].mutated(mask.nodes[j].weights.as_slice(), draw));
            j += 1;
        }
        Layer { nodes }
    }
}

impl<W> View for Network<W> {
    type V = Seq<Seq<Seq<W>>>;

    closed spec fn view(&self) -> Seq<Seq<Seq<W>>> {
        Seq::new(self.layers@.len(), |i: int| self.layers@[i]@)
    }
}

impl<W> Network<W> {
    /// Checks that `layers` describes a network that can be built.
    pub fn is_valid_type(layers: &[usize]) -> (r: Result<(), CreationError>)
        ensures
            r is Ok <==> valid_topology(layers@),
            r matches Err(e) ==> e == CreationError::NotEnoughLayers,
    {
        if layers.len() < 2 {
            return Err(CreationError::NotEnoughLayers);
        }
        let mut i: usize = 0;
        while i < layers.len()
            invariant
                i <= layers@.len(),
                forall|m: int| 0 <= m < i ==> #[trigger] layers@[m] != 0,
            decreases layers@.len() - i,
        {
            if layers[i] == 0 {
                return Err(CreationError::NotEnoughLayers);
            }
            i += 1;
        }
        Ok(())
    }

    /// Evaluates the network on `input`, layer by layer, each node's value being
    /// what `node` returns on the previous layer's values and the node's
    /// weights. Fails with `WrongInputCount` unless `input` has as many values
    /// as the network reads.
    #[verifier::spinoff_prover]
    pub fn run<F: Fn(&[W], &[W]) -> W>(&self, input: &[W], node: F) -> (r: Result<Vec<W>, RunError>)
        where
            W: Copy,
        requires
            well_formed(self@),
            accepts_nodes(node),
        ensures
            r is Err <==> input@.len() != input_size(self@),
            r matches Err(e) ==> e == RunError::WrongInputCount,
            r matches Ok(out) ==> exists|trace: Seq<Seq<W>>|
                forward_trace(node, self@, input@, trace) && #[trigger] trace.last() == out@,
            r matches Ok(out) ==> out@.len() == self@.last().len(),
    {
        assert(self.layers@[0]@ == self@[0]);
        assert(self@[0][0] == self.layers@[0].nodes@[0]@);
        if input.len() != self.layers[0].nodes[0].weights.len() - 1 {
            return Err(RunError::WrongInputCount);
        }
        let mut prev: Vec<W> = vstd::slice::slice_to_vec(input);
        let ghost mut trace: Seq<Seq<W>> = seq![input@];
        let mut li: usize = 0;
        while li < self.layers.len()
            invariant
                well_formed(self@),
                accepts_nodes(node),
                li <= self@.len(),
                trace.len() == li + 1,
                trace[0] == input@,
                forall|i: int| 0 <= i < li ==> layer_values(node, #[trigger] trace[i], self@[i], trace[i + 1]),
                prev@ == trace[li as int],
                li == 0 ==> prev@.len() == input_size(self@),
                li > 0 ==> prev@.len() == self@[li - 1].len(),
            decreases self@.len() - li,
        {
            let layer = &self.layers[li];
            let mut current: Vec<W> = Vec::with_capacity(layer.nodes.len());
            let mut j: usize = 0;
            while j < layer.nodes.len()
                invariant
                    well_formed(self@),
                    accepts_nodes(node),
                    li < self@.len(),
                    *layer == self.layers@[li as int],
                    li == 0 ==> prev@.len() == input_size(self@),
                    li > 0 ==> prev@.len() == self@[li - 1].len(),
                    j <= layer.nodes@.len(),
                    current@.len() == j,
                    forall|m: int| 0 <= m < j ==> node_value(node, prev@, self@[li as int][m], #[trigger] current@[m]),
                decreases layer.nodes@.len() - j,
            {
                let a0 = prev.as_slice();
                let w0 = layer.nodes[j].weights.as_slice();
                assert(self@[li as int][j as int] == w0@);
                let v = node(a0, w0);
                assert(node_value(node, prev@, self@[li as int][j as int], v));
                current.push(v);
                j += 1;
            }
            proof {
                trace = trace.push(current@);
                assert(layer_values(node, trace[li as int], self@[li as int], trace[li + 1]));
            }
            prev = current;
            li += 1;
        }
        assert(forward_trace(node, self@, input@, trace));
        assert(trace.last() == prev@);
        assert(layer_values(node, trace[self@.len() - 1], self@[self@.len() - 1], trace[self@.len() as int]));
        Ok(prev)
    }

    /// A network shaped like `shape`, every weight a fresh value of `draw`.
    pub fn like<V, F: Fn() -> W>(shape: &Network<V>, draw: F) -> (r: Network<W>)
        requires
            draw.requires(()),
        ensures
            same_shape(r@, shape@),
            every_weight(r@, |w: W| draw.ensures((), w)),
    {
        let mut layers: Vec<Layer<W>> = Vec::with_capacity(shape.layers.len());
        let mut i: usize = 0;
        while i < shape.layers.len()
            invariant
                draw.requires(()),
                i <= shape@.len(),
                layers@.len() == i,
                forall|m: int| 0 <= m < i ==> same_layer_shape(#[trigger] layers@[m]@, shape@[m]),
                forall|m: int, j: int, k: int|
                    0 <= m < i && 0 <= j < layers@[m]@.len() && 0 <= k < layers@[m]@[j].len()
                        ==> draw.ensures((), #[trigger] layers@[m]@[j][k]),
            decreases shape@.len() - i,
        {
            layers.push(Layer::like(&shape.layers[i], &draw));
            i += 1;
        }
        let r = Network { layers };
        assert forall|m: int, j: int| 0 <= m < r@.len() && 0 <= j < r@[m].len() implies #[trigger] r@[m][j].len()
            == shape@[m][j].len() by {
            assert(same_layer_shape(r@[m], shape@[m]));
        }
        assert forall|m: int| 0 <= m < r@.len() implies #[trigger] r@[m].len() == shape@[m].len() by {
            assert(same_layer_shape(r@[m], shape@[m]));
        }
        r
    }

    /// The child of `father` and `mother` that holds the mother's weight at
    /// each position that `mask` marks and the mother has, and the father's
    /// weight everywhere else.
    pub fn breed_by_mask(father: &Network<W>, mother: &Network<W>, mask: &Network<bool>) -> (r: Network<W>)
        where
            W: Copy,
        requires
            same_shape(mask@, father@),
        ensures
            r@ == masked_overlay(father@, mother@, mask@),
    {
        let no_layer: Layer<W> = Layer { nodes: Vec::new() };
        let mut layers: Vec<Layer<W>> = Vec::with_capacity(father.layers.len());
        let mut i: usize = 0;
        while i < father.layers.len()
            invariant
                same_shape(mask@, father@),
                no_layer@ == Seq::<Seq<W>>::empty(),
                i <= father@.len(),
                layers@.len() == i,
                forall|m: int| 0 <= m < i ==> #[trigger] layers@[m]@ == masked_overlay(father@, mother@, mask@)[m],
            decreases father@.len() - i,
        {
            let mother_layer = if i < mother.layers.len() {
                &mother.layers[i]
            } else {
                &no_layer
            };
            assert(mother_layer@ == entry_or_empty(mother@, i as int));
            assert(same_layer_shape(mask@[i as int], father@[i as int]));
            layers.push(father.layers[i].crossed(mother_layer, &mask.layers[i]));
            i += 1;
        }
        let r = Network { layers };
        assert(r@ =~= masked_overlay(father@, mother@, mask@));
        r
    }

    /// A child of `father` and `mother`: the father's structure, in which each
    /// weight that the mother also has is, by one trial of `chance`, replaced
    /// with the mother's weight at the same position. Parents of one topology
    /// share every position; where the mother lacks one, the father's weight
    /// stays.
    pub fn breed(father: &Network<W>, mother: &Network<W>, chance: Chance) -> (r: Network<W>)
        where
            W: Copy,
        requires
            chance.wf(),
        ensures
            exists|mask: Seq<Seq<Seq<bool>>>|
                same_shape(mask, father@) && r@ == #[trigger] masked_overlay(father@, mother@, mask),
            same_shape(r@, father@),
            well_formed(father@) ==> well_formed(r@),
            chance.is_never() ==> r@ == father@,
            chance.is_always() ==> r@ == overlay(father@, mother@),
    {
        let coin = || -> (b: bool)
            requires
                chance.wf(),
            ensures
                chance.is_never() ==> !b,
                chance.is_always() ==> b,
            { chance.sample() };
        let mask = Network::<bool>::like(father, coin);
        let r = Self::breed_by_mask(father, mother, &mask);
        proof {
            lemma_masked_overlay_shape(father@, mother@, mask@);
            lemma_same_shape_well_formed(r@, father@);
            lemma_same_shape_symmetric(mask@, father@);
            if chance.is_never() {
                assert(every_weight(mask@, |b: bool| !b));
            }
            if chance.is_always() {
                assert(every_weight(mask@, |b: bool| b));
            }
            lemma_masked_overlay_extremes(father@, mother@, mask@);
        }
        r
    }

    /// Replaces with a fresh value of `draw` each weight at a position that
    /// `mask` marks, and keeps every other weight.
    pub fn mutate_by_mask<F: Fn() -> W>(&mut self, mask: &Network<bool>, draw: F)
        where
            W: Copy,
        requires
            same_shape(mask@, old(self)@),
            draw.requires(()),
        ensures
            same_shape(final(self)@, old(self)@),
            well_formed(old(self)@) ==> well_formed(final(self)@),
            forall|i: int, j: int, k: int|
                0 <= i < old(self)@.len() && 0 <= j < old(self)@[i].len() && 0 <= k < old(self)@[i][j].len()
                    && mask@[i][j][k] ==> draw.ensures((), #[trigger] final(self)@[i][j][k]),
            forall|i: int, j: int, k: int|
                0 <= i < old(self)@.len() && 0 <= j < old(self)@[i].len() && 0 <= k < old(self)@[i][j].len()
                    && !mask@[i][j][k] ==> #[trigger] final(self)@[i][j][k] == old(self)@[i][j][k],
    {
        let mut layers: Vec<Layer<W>> = Vec::with_capacity(self.layers.len());
        let mut i: usize = 0;
        while i < self.layers.len()
            invariant
                same_shape(mask@, self@),
                draw.requires(()),
                i <= self@.len(),
                layers@.len() == i,
                forall|m: int| 0 <= m < i ==> same_layer_shape(#[trigger] layers@[m]@, self@[m]),
                forall|m: int, j: int, k: int|
                    0 <= m < i && 0 <= j < self@[m].len() && 0 <= k < self@[m][j].len() && mask@[m][j][k]
                        ==> draw.ensures((), #[trigger] layers@[m]@[j][k]),
                forall|m: int, j: int, k: int|
                    0 <= m < i && 0 <= j < self@[m].len() && 0 <= k < self@[m][j].len() && !mask@[m][j][k]
                        ==> #[trigger] layers@[m]@[j][k] == self@[m][j][k],
            decreases self@.len() - i,
        {
            assert(same_layer_shape(mask@[i as int], self@[i as int]));
            let next = self.layers[i].mutated(&mask.layers[i], &draw);
            layers.push(next);
            i += 1;
        }
        let ghost before = self@;
        *self = Network { layers };
        assert forall|m: int, j: int| 0 <= m < self@.len() && 0 <= j < self@[m].len() implies #[trigger] self@[m][j].len()
            == before[m][j].len() by {
            assert(same_layer_shape(self@[m], before[m]));
        }
        assert forall|m: int| 0 <= m < self@.len() implies #[trigger] self@[m].len() == before[m].len() by {
            assert(same_layer_shape(self@[m], before[m]));
        }
        proof {
            lemma_same_shape_well_formed(self@, before);
        }
    }

    /// Mutates the network in place: each weight is, by one trial of
    /// `chance`, replaced with a fresh value of `draw`.
    pub fn mutate<F: Fn() -> W>(&mut self, chance: Chance, draw: F)
        where
            W: Copy,
        requires
            chance.wf(),
            draw.requires(()),
        ensures
            same_shape(final(self)@, old(self)@),
            well_formed(old(self)@) ==> well_formed(final(self)@),
            forall|i: int, j: int, k: int|
                0 <= i < old(self)@.len() && 0 <= j < old(self)@[i].len() && 0 <= k < old(self)@[i][j].len()
                    ==> #[trigger] final(self)@[i][j][k] == old(self)@[i][j][k]
                    || draw.ensures((), final(self)@[i][j][k]),
            chance.is_never() ==> final(self)@ == old(self)@,
            chance.is_always() ==> every_weight(final(self)@, |w: W| draw.ensures((), w)),
    {
        let coin = || -> (b: bool)
            requires
                chance.wf(),
            ensures
                chance.is_never() ==> !b,
                chance.is_always() ==> b,
            { chance.sample() };
        let mask = Network::<bool>::like(self, coin);
        let ghost before = self@;
        self.mutate_by_mask(&mask, draw);
        proof {
            lemma_same_shape_symmetric(mask@, before);
            if chance.is_never() {
                assert forall|i: int| 0 <= i < before.len() implies #[trigger] self@[i] == before[i] by {
                    assert forall|j: int| 0 <= j < before[i].len() implies #[trigger] self@[i][j] == before[i][j] by {
                        assert forall|k: int| 0 <= k < before[i][j].len() implies self@[i][j][k] == before[i][j][k] by {
                            assert(!mask@[i][j][k]);
                        }
                        assert(self@[i][j] =~= before[i][j]);
                    }
                    assert(self@[i] =~= before[i]);
                }
                assert(self@ =~= before);
            }
            if chance.is_always() {
                assert forall|i: int, j: int, k: int|
                    0 <= i < self@.len() && 0 <= j < self@[i].len() && 0 <= k < self@[i][j].len() implies draw.ensures(
                    (),
                    #[trigger] self@[i][j][k],
                ) by {
                    assert(mask@[i][j][k]);
                }
            }
        }
    }

    /// The number of computing layers.
    pub fn layer_count(&self) -> (r: usize)
        ensures
            r == self@.len(),
    {
        self.layers.len()
    }

    /// The number of nodes of layer `layer`.
    pub fn node_count(&self, layer: usize) -> (r: usize)
        requires
            layer < self@.len(),
        ensures
            r == self@[layer as int].len(),
    {
        self.layers[layer].nodes.len()
    }

    /// The weights of one node, the bias weight last.
    pub fn weights(&self, layer: usize, node: usize) -> (r: &[W])
        requires
            layer < self@.len(),
            node < self@[layer as int].len(),
        ensures
            r@ == self@[layer as int][node as int],
    {
        self.layers[layer].nodes[node].weights.as_slice()
    }

    /// The number of input values that the network reads.
    pub fn input_size(&self) -> (r: usize)
        requires
            well_formed(self@),
        ensures
            r == input_size(self@),
    {
        assert(self.layers@[0]@ == self@[0]);
        assert(self@[0][0] == self.layers@[0].nodes@[0]@);
        self.layers[0].nodes[0].weights.len() - 1
    }

    /// Builds a network of topology `layers`, every weight a fresh value of
    /// `draw`; fails with `NotEnoughLayers` unless the topology is valid.
    pub fn new<F: Fn() -> W>(layers: &[usize], draw: F) -> (r: Result<Network<W>, CreationError>)
        requires
            forall|i: int| 0 <= i < layers@.len() - 1 ==> #[trigger] layers@[i] < usize::MAX,
            draw.requires(()),
        ensures
            r is Ok <==> valid_topology(layers@),
            r matches Err(e) ==> e == CreationError::NotEnoughLayers,
            r matches Ok(n) ==> {
                &&& well_formed(n@)
                &&& has_shape(n@, layers@)
                &&& every_weight(n@, |w: W| draw.ensures((), w))
            },
    {
        Self::is_valid_type(layers)?;
        let mut built: Vec<Layer<W>> = Vec::with_capacity(layers.len() - 1);
        built.push(Layer::new(layers[1], layers[0] + 1, &draw));
        let mut idx: usize = 2;
        while idx < layers.len()
            invariant
                2 <= idx <= layers@.len(),
                valid_topology(layers@),
                forall|i: int| 0 <= i < layers@.len() - 1 ==> #[trigger] layers@[i] < usize::MAX,
                draw.requires(()),
                built@.len() == idx - 1,
                forall|i: int| 0 <= i < built@.len() ==> (#[trigger] built@[i])@.len() == layers@[i + 1],
                forall|i: int, j: int|
                    0 <= i < built@.len() && 0 <= j < built@[i]@.len() ==> (#[trigger] built@[i]@[j]).len()
                        == layers@[i] + 1,
                forall|i: int, j: int, k: int|
                    0 <= i < built@.len() && 0 <= j < built@[i]@.len() && 0 <= k < built@[i]@[j].len()
                        ==> draw.ensures((), #[trigger] built@[i]@[j][k]),
            decreases layers@.len() - idx,
        {
            let prev_node_count = built[built.len() - 1].nodes.len();
            built.push(Layer::new(layers[idx], prev_node_count + 1, &draw));
            idx += 1;
        }
        let network = Network { layers: built };
        assert(layers@[0] != 0 && layers@[1] != 0);
        assert(has_shape(network@, layers@));
        Ok(network)
    }
}

} // verus!
