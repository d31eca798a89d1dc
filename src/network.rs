//! Layered, fully connected feedforward networks.

use vstd::prelude::*;

use crate::random::Random;
use crate::scalar::Scalar;

verus! {

/// One unit of a layer. `weights[k]` is the weight of the edge from this node
/// to node `k` of the next layer; nodes of the output layer have no weights.
pub struct Node<W> {
    pub activation: W,
    pub bias: W,
    pub weights: Vec<W>,
}

/// An ordered sequence of nodes; a node's index is its address.
pub struct Layer<W> {
    pub nodes: Vec<Node<W>>,
}

/// A feedforward network: an input layer, any hidden layers, an output layer.
pub struct NeuralNetwork<W> {
    pub layers: Vec<Layer<W>>,
}

impl<W> NeuralNetwork<W> {
    /// The layer sizes, input first.
    pub open spec fn shape(&self) -> Seq<usize> {
        Seq::new(self.layers@.len(), |i: int| self.layers@[i].nodes.len())
    }

    /// The number of nodes that the nodes of layer `i` feed: the size of the
    /// next layer, or 0 for the output layer.
    pub open spec fn fan_out(&self, i: int) -> int {
        if i + 1 < self.layers@.len() {
            self.layers@[i + 1].nodes@.len() as int
        } else {
            0
        }
    }

    /// At least an input and an output layer, and every node has one weight
    /// per node of the next layer.
    pub open spec fn well_formed(&self) -> bool {
        &&& self.layers@.len() >= 2
        &&& forall|i: int, j: int|
            0 <= i < self.layers@.len() && 0 <= j < self.layers@[i].nodes@.len()
                ==> #[trigger] self.layers@[i].nodes@[j].weights@.len() == self.fan_out(i)
    }

    /// Every activation and every output-layer bias is zero: a network as
    /// built, before any input.
    pub open spec fn at_rest(&self) -> bool where W: Scalar {
        &&& forall|l: int, j: int|
            0 <= l < self.layers@.len() && 0 <= j < self.layers@[l].nodes@.len()
                ==> (#[trigger] self.layers@[l].nodes@[j]).activation == W::spec_zero()
        &&& forall|j: int|
            0 <= j < self.layers@[self.layers@.len() - 1].nodes@.len()
                ==> (#[trigger] self.layers@[self.layers@.len() - 1].nodes@[j]).bias == W::spec_zero()
    }

    /// Every node but those of the output layer, of a network of shape `s`,
    /// takes its bias and weights from `draws` at its place in the order:
    /// layer by layer, node by node, bias first, then the weights.
    pub open spec fn built_from(&self, s: Seq<usize>, draws: Seq<W>) -> bool {
        forall|i: int, j: int|
            0 <= i < s.len() - 1 && 0 <= j < s[i] ==> node_built_from(
                #[trigger] self.layers@[i].nodes@[j],
                draws,
                bias_draw(s, i, j),
            )
    }

    /// `self` is `old` after forward propagation of `input`: only activations
    /// changed; input node `j` holds `input[j]` where there is one and its
    /// old activation otherwise; every later node holds `propagated` of the
    /// layer before it.
    pub open spec fn processed(&self, old: &Self, input: Seq<W>) -> bool where W: Scalar {
        &&& self.well_formed()
        &&& self.same_parameters(old)
        &&& self.shape() == old.shape()
        &&& forall|j: int|
            0 <= j < self.layers@[0].nodes@.len() ==> (#[trigger] self.layers@[0].nodes@[j]).activation
                == if j < input.len() {
                input[j]
            } else {
                old.layers@[0].nodes@[j].activation
            }
        &&& forall|l: int, j: int|
            1 <= l < self.layers@.len() && 0 <= j < self.layers@[l].nodes@.len()
                ==> (#[trigger] self.layers@[l].nodes@[j]).activation == propagated(
                self.layers@[l - 1].nodes@,
                j,
            )
    }

    /// The activations of the output layer, in node order.
    pub open spec fn outputs(&self) -> Seq<W> {
        let last = self.layers@[self.layers@.len() - 1];
        Seq::new(last.nodes@.len(), |j: int| last.nodes@[j].activation)
    }

    /// Same layer and node counts, and every node has the same bias and the
    /// same weights: the two differ at most in their activations.
    pub open spec fn same_parameters(&self, other: &Self) -> bool {
        &&& self.layers@.len() == other.layers@.len()
        &&& forall|i: int|
            0 <= i < self.layers@.len() ==> (#[trigger] self.layers@[i]).nodes@.len()
                == other.layers@[i].nodes@.len()
        &&& forall|i: int, j: int|
            0 <= i < self.layers@.len() && 0 <= j < self.layers@[i].nodes@.len() ==> {
                &&& (#[trigger] self.layers@[i].nodes@[j]).bias == other.layers@[i].nodes@[j].bias
                &&& self.layers@[i].nodes@[j].weights@ == other.layers@[i].nodes@[j].weights@
            }
    }

    /// The same parameters and the same activations: a copy.
    pub open spec fn same_values(&self, other: &Self) -> bool {
        &&& self.same_parameters(other)
        &&& forall|i: int, j: int|
            0 <= i < self.layers@.len() && 0 <= j < self.layers@[i].nodes@.len()
                ==> (#[trigger] self.layers@[i].nodes@[j]).activation == other.layers@[i].nodes@[j].activation
    }
}

/// Two nodes holding the same values.
pub open spec fn same_node<W>(a: Node<W>, b: Node<W>) -> bool {
    &&& a.activation == b.activation
    &&& a.bias == b.bias
    &&& a.weights@ == b.weights@
}

/// A layer of `count` nodes, each with `fan_out` weights.
pub open spec fn layer_fits<W>(layer: Layer<W>, count: int, fan_out: int) -> bool {
    &&& layer.nodes@.len() == count
    &&& forall|j: int| 0 <= j < count ==> (#[trigger] layer.nodes@[j]).weights@.len() == fan_out
}

/// Having the same parameters is transitive.
proof fn lemma_same_parameters_transitive<W>(
    a: &NeuralNetwork<W>,
    b: &NeuralNetwork<W>,
    c: &NeuralNetwork<W>,
)
    requires
        a.same_parameters(b),
        b.same_parameters(c),
    ensures
        a.same_parameters(c),
{
    assert forall|i: int, j: int|
        0 <= i < a.layers@.len() && 0 <= j < a.layers@[i].nodes@.len() implies {
        &&& (#[trigger] a.layers@[i].nodes@[j]).bias == c.layers@[i].nodes@[j].bias
        &&& a.layers@[i].nodes@[j].weights@ == c.layers@[i].nodes@[j].weights@
    } by {
        assert(b.layers@[i].nodes@.len() == a.layers@[i].nodes@.len());
        assert(b.layers@[i].nodes@[j].bias == c.layers@[i].nodes@[j].bias);
    }
}

/// The shape lists one size per layer.
pub proof fn lemma_shape<W>(a: &NeuralNetwork<W>)
    ensures
        a.shape().len() == a.layers@.len(),
        forall|i: int|
            0 <= i < a.layers@.len() ==> #[trigger] a.shape()[i] == a.layers@[i].nodes@.len(),
{
}

/// A well-formed network has one layer per entry of its shape, and its
/// output has one value per node of the last layer: `output()` of a network
/// built by `new(structure, ..)` has length `structure.last()`.
pub proof fn lemma_output_width<W>(net: &NeuralNetwork<W>)
    requires
        net.well_formed(),
    ensures
        net.layers@.len() == net.shape().len(),
        net.outputs().len() == net.shape().last(),
{
}

/// Networks with the same parameters have the same shape.
proof fn lemma_same_parameters_shape<W>(a: &NeuralNetwork<W>, b: &NeuralNetwork<W>)
    requires
        a.same_parameters(b),
    ensures
        a.shape() == b.shape(),
{
    assert forall|i: int| 0 <= i < a.layers@.len() implies a.shape()[i] == b.shape()[i] by {
        assert(a.layers@[i].nodes@.len() == b.layers@[i].nodes@.len());
    }
    assert(a.shape() =~= b.shape());
}

/// The contribution of `node` along its edge `k`: activation times weight,
/// plus the node's own bias.
pub open spec fn edge_value<W: Scalar>(node: Node<W>, k: int) -> W {
    node.activation.spec_times(node.weights@[k]).spec_plus(node.bias)
}

/// The contributions of the first `n` of `nodes` along edge `j`, summed left
/// to right from zero.
pub open spec fn edge_sum<W: Scalar>(nodes: Seq<Node<W>>, j: int, n: int) -> W
    decreases n,
{
    if n <= 0 {
        W::spec_zero()
    } else {
        edge_sum(nodes, j, n - 1).spec_plus(edge_value(nodes[n - 1], j))
    }
}

/// The activation that forward propagation gives node `j` of the layer fed
/// by `nodes`: the sigmoid of the sum of all their contributions along edge
/// `j` (so each source bias is added once per edge).
pub open spec fn propagated<W: Scalar>(nodes: Seq<Node<W>>, j: int) -> W {
    edge_sum(nodes, j, nodes.len() as int).spec_sigmoid()
}

/// Two sequences of nodes that agree in activations, biases and weights give
/// the same sums.
proof fn lemma_edge_sum_agrees<W: Scalar>(x: Seq<Node<W>>, y: Seq<Node<W>>, j: int, n: int)
    requires
        n <= x.len(),
        n <= y.len(),
        forall|p: int| 0 <= p < n ==> same_node(#[trigger] x[p], y[p]),
    ensures
        edge_sum(x, j, n) == edge_sum(y, j, n),
    decreases n,
{
    if n > 0 {
        lemma_edge_sum_agrees(x, y, j, n - 1);
        assert(same_node(x[n - 1], y[n - 1]));
    }
}

proof fn lemma_processed_layers_agree<W: Scalar>(
    a: &NeuralNetwork<W>,
    b: &NeuralNetwork<W>,
    a2: &NeuralNetwork<W>,
    b2: &NeuralNetwork<W>,
    input: Seq<W>,
    l: int,
)
    requires
        a.same_values(b),
        a2.processed(a, input),
        b2.processed(b, input),
        0 <= l < a2.layers@.len(),
    ensures
        forall|j: int|
            0 <= j < a2.layers@[l].nodes@.len() ==> same_node(
                #[trigger] a2.layers@[l].nodes@[j],
                b2.layers@[l].nodes@[j],
            ),
    decreases l,
{
    if l > 0 {
        lemma_processed_layers_agree(a, b, a2, b2, input, l - 1);
    }
    assert forall|j: int| 0 <= j < a2.layers@[l].nodes@.len() implies same_node(
        #[trigger] a2.layers@[l].nodes@[j],
        b2.layers@[l].nodes@[j],
    ) by {
        assert(a.layers@[l].nodes@.len() == b.layers@[l].nodes@.len());
        assert(a2.layers@[l].nodes@[j].bias == a.layers@[l].nodes@[j].bias);
        assert(b2.layers@[l].nodes@[j].bias == b.layers@[l].nodes@[j].bias);
        assert(a.layers@[l].nodes@[j].bias == b.layers@[l].nodes@[j].bias);
        if l == 0 {
            assert(a.layers@[0].nodes@[j].activation == b.layers@[0].nodes@[j].activation);
        } else {
            let x = a2.layers@[l - 1].nodes@;
            let y = b2.layers@[l - 1].nodes@;
            assert(a.layers@[l - 1].nodes@.len() == b.layers@[l - 1].nodes@.len());
            assert(forall|p: int| 0 <= p < x.len() ==> same_node(#[trigger] x[p], y[p]));
            lemma_edge_sum_agrees(x, y, j, x.len() as int);
        }
    }
}

/// Forward propagation is deterministic: two networks holding the same
/// values, given the same input, hold the same values afterwards (and so
/// give the same output).
pub proof fn lemma_process_deterministic<W: Scalar>(
    a: &NeuralNetwork<W>,
    b: &NeuralNetwork<W>,
    a2: &NeuralNetwork<W>,
    b2: &NeuralNetwork<W>,
    input: Seq<W>,
)
    requires
        a.same_values(b),
        a2.processed(a, input),
        b2.processed(b, input),
    ensures
        a2.same_values(b2),
        a2.outputs() == b2.outputs(),
{
    assert forall|l: int, j: int|
        0 <= l < a2.layers@.len() && 0 <= j < a2.layers@[l].nodes@.len() implies {
        &&& (#[trigger] a2.layers@[l].nodes@[j]).bias == b2.layers@[l].nodes@[j].bias
        &&& a2.layers@[l].nodes@[j].weights@ == b2.layers@[l].nodes@[j].weights@
        &&& a2.layers@[l].nodes@[j].activation == b2.layers@[l].nodes@[j].activation
    } by {
        lemma_processed_layers_agree(a, b, a2, b2, input, l);
    }
    assert forall|l: int| 0 <= l < a2.layers@.len() implies (#[trigger] a2.layers@[l]).nodes@.len()
        == b2.layers@[l].nodes@.len() by {
        assert(a.layers@[l].nodes@.len() == b.layers@[l].nodes@.len());
    }
    assert(a2.outputs() =~= b2.outputs());
}

/// Number of values drawn for the layers before layer `i` of a network of
/// shape `s`: each node of a layer `l` takes one bias and `s[l + 1]` weights.
pub open spec fn draws_before(s: Seq<usize>, i: int) -> int
    decreases i,
{
    if i <= 0 {
        0
    } else {
        draws_before(s, i - 1) + s[i - 1] * (1 + s[i])
    }
}

/// Where the bias of node `j` of layer `i` sits among the draws; its weights
/// follow it in order.
pub open spec fn bias_draw(s: Seq<usize>, i: int, j: int) -> int {
    draws_before(s, i) + j * (1 + s[i + 1])
}

/// `node` takes its bias from `draws[at]` and its weights from the draws
/// right after.
pub open spec fn node_built_from<W>(node: Node<W>, draws: Seq<W>, at: int) -> bool {
    &&& node.bias == draws[at]
    &&& forall|k: int| 0 <= k < node.weights@.len() ==> #[trigger] node.weights@[k] == draws[at + 1 + k]
}

proof fn lemma_draws_before_grows(s: Seq<usize>, i: int, j: int)
    requires
        0 <= i <= j,
    ensures
        draws_before(s, i) <= draws_before(s, j),
    decreases j,
{
    if i < j {
        lemma_draws_before_grows(s, i, j - 1);
        assert(s[j - 1] * (1 + s[j]) >= 0) by (nonlinear_arith);
    }
}

proof fn lemma_node_fits(j: int, n: int, w: int)
    requires
        0 <= j < n,
        0 <= w,
    ensures
        j * (1 + w) + 1 + w <= n * (1 + w),
{
    assert((j + 1) * (1 + w) <= n * (1 + w)) by (nonlinear_arith)
        requires
            j + 1 <= n,
            0 <= w,
    ;
    assert((j + 1) * (1 + w) == j * (1 + w) + 1 + w) by (nonlinear_arith);
}

proof fn lemma_next_node(j: int, w: int)
    ensures
        j * (1 + w) + 1 + w == (j + 1) * (1 + w),
{
    assert((j + 1) * (1 + w) == j * (1 + w) + 1 + w) by (nonlinear_arith);
}

impl<W: Scalar> Node<W> {
    /// This node's contribution along its edge `k`: activation times weight,
    /// plus the node's own bias (the bias is added once per edge).
    fn weighted(&self, k: usize) -> (r: W)
        requires
            k < self.weights@.len(),
        ensures
            r == edge_value(*self, k as int),
    {
        self.activation.times(self.weights[k]).plus(self.bias)
    }
}

impl<W: Scalar> NeuralNetwork<W> {
    /// A network of the given shape: every node but those of the output layer
    /// gets a bias and one weight per node of the next layer, each drawn
    /// uniformly from `[-1, 1)` (layer by layer, node by node, the bias
    /// first, then the weights in order); activations start at zero; output
    /// nodes get no weights and a zero bias.
    pub fn new(structure: &[usize], random: &mut Random) -> (r: Self)
        requires
            structure@.len() >= 2,
        ensures
            r.well_formed(),
            r.shape() == structure@,
            r.at_rest(),
            exists|draws: Seq<W>|
                draws.len() == draws_before(structure@, structure@.len() - 1)
                    && #[trigger] r.built_from(structure@, draws),
    {
        let low = W::ratio(-1, 1);
        let high = W::ratio(1, 1);
        let mut draws: Vec<W> = Vec::new();
        let last = structure.len() - 1;
        let mut i: usize = 0;
        while i < last
            invariant
                i <= last,
                last == structure@.len() - 1,
                draws@.len() == draws_before(structure@, i as int),
            decreases last - i,
        {
            let amount_nodes = structure[i];
            let amount_weights = structure[i + 1];
            let mut j: usize = 0;
            while j < amount_nodes
                invariant
                    i < last,
                    last == structure@.len() - 1,
                    amount_nodes == structure@[i as int],
                    amount_weights == structure@[i + 1],
                    j <= amount_nodes,
                    draws@.len() == draws_before(structure@, i as int) + j * (1 + amount_weights),
                decreases amount_nodes - j,
            {
                draws.push(W::uniform(random, low, high));
                let mut k: usize = 0;
                while k < amount_weights
                    invariant
                        k <= amount_weights,
                        draws@.len() == draws_before(structure@, i as int) + j * (1 + amount_weights) + 1
                            + k,
                    decreases amount_weights - k,
                {
                    draws.push(W::uniform(random, low, high));
                    k = k + 1;
                }
                proof {
                    lemma_next_node(j as int, amount_weights as int);
                }
                j = j + 1;
            }
            i = i + 1;
        }
        Self::from_draws(structure, &draws)
    }

    /// A network of the given shape built from `draws`, taken in order: layer
    /// by layer, node by node, the bias first, then the weights in order.
    /// Activations start at zero; output nodes get no weights and a zero bias.
    pub fn from_draws(structure: &[usize], draws: &Vec<W>) -> (r: Self)
        requires
            structure@.len() >= 2,
            draws@.len() == draws_before(structure@, structure@.len() - 1),
        ensures
            r.well_formed(),
            r.shape() == structure@,
            r.at_rest(),
            r.built_from(structure@, draws@),
    {
        let mut layers: Vec<Layer<W>> = Vec::new();
        let last = structure.len() - 1;
        let mut at: usize = 0;
        let mut i: usize = 0;
        while i < last
            invariant
                i <= last,
                last == structure@.len() - 1,
                draws@.len() == draws_before(structure@, last as int),
                at == draws_before(structure@, i as int),
                layers@.len() == i,
                forall|l: int|
                    0 <= l < i ==> layer_fits(
                        #[trigger] layers@[l],
                        structure@[l] as int,
                        structure@[l + 1] as int,
                    ),
                forall|l: int, n: int|
                    0 <= l < i && 0 <= n < layers@[l].nodes@.len()
                        ==> (#[trigger] layers@[l].nodes@[n]).activation == W::spec_zero(),
                forall|l: int, n: int|
                    0 <= l < i && 0 <= n < layers@[l].nodes@.len() ==> node_built_from(
                        #[trigger] layers@[l].nodes@[n],
                        draws@,
                        bias_draw(structure@, l, n),
                    ),
            decreases last - i,
        {
            let amount_nodes = structure[i];
            let amount_weights = structure[i + 1];
            proof {
                lemma_draws_before_grows(structure@, i as int + 1, last as int);
            }
            let mut nodes: Vec<Node<W>> = Vec::new();
            let mut j: usize = 0;
            while j < amount_nodes
                invariant
                    i < last,
                    last == structure@.len() - 1,
                    amount_nodes == structure@[i as int],
                    amount_weights == structure@[i + 1],
                    draws@.len() == draws_before(structure@, last as int),
                    draws_before(structure@, i as int + 1) <= draws@.len(),
                    j <= amount_nodes,
                    at == draws_before(structure@, i as int) + j * (1 + amount_weights),
                    nodes@.len() == j,
                    forall|n: int| 0 <= n < j ==> (#[trigger] nodes@[n]).weights@.len() == amount_weights,
                    forall|n: int| 0 <= n < j ==> (#[trigger] nodes@[n]).activation == W::spec_zero(),
                    forall|n: int|
                        0 <= n < j ==> node_built_from(
                            #[trigger] nodes@[n],
                            draws@,
                            bias_draw(structure@, i as int, n),
                        ),
                decreases amount_nodes - j,
            {
                proof {
                    lemma_node_fits(j as int, amount_nodes as int, amount_weights as int);
                    assert(draws_before(structure@, i as int + 1) == draws_before(structure@, i as int)
                        + structure@[i as int] * (1 + structure@[i + 1]));
                    assert(at + 1 + amount_weights <= draws@.len());
                    assert(draws@.len() == draws.len());
                }
                let start = at;
                let bias = draws[at];
                at = at + 1;
                let mut weights: Vec<W> = Vec::new();
                let mut k: usize = 0;
                while k < amount_weights
                    invariant
                        k <= amount_weights,
                        at == start + 1 + k,
                        start + 1 + amount_weights <= draws@.len(),
                        draws@.len() == draws.len(),
                        weights@.len() == k,
                        forall|m: int| 0 <= m < k ==> #[trigger] weights@[m] == draws@[start + 1 + m],
                    decreases amount_weights - k,
                {
                    weights.push(draws[at]);
                    at = at + 1;
                    k = k + 1;
                }
                let node = Node { activation: W::zero(), bias, weights };
                assert(node_built_from(node, draws@, bias_draw(structure@, i as int, j as int)));
                nodes.push(node);
                proof {
                    lemma_next_node(j as int, amount_weights as int);
                }
                j = j + 1;
            }
            layers.push(Layer { nodes });
            i = i + 1;
        }
        let amount_outputs = structure[last];
        let mut outputs: Vec<Node<W>> = Vec::new();
        let mut j: usize = 0;
        while j < amount_outputs
            invariant
                j <= amount_outputs,
                outputs@.len() == j,
                forall|n: int| 0 <= n < j ==> (#[trigger] outputs@[n]).weights@.len() == 0,
                forall|n: int|
                    0 <= n < j ==> (#[trigger] outputs@[n]).activation == W::spec_zero()
                        && outputs@[n].bias == W::spec_zero(),
            decreases amount_outputs - j,
        {
            outputs.push(Node { activation: W::zero(), bias: W::zero(), weights: Vec::new() });
            j = j + 1;
        }
        layers.push(Layer { nodes: outputs });
        let r = NeuralNetwork { layers };
        assert forall|l: int| 0 <= l < r.layers@.len() implies layer_fits(
            #[trigger] r.layers@[l],
            structure@[l] as int,
            r.fan_out(l),
        ) by {}
        assert(r.shape() =~= structure@);
        r
    }

    /// The layer sizes, input first.
    pub fn layer_sizes(&self) -> (r: Vec<usize>)
        ensures
            r@ == self.shape(),
    {
        let mut r: Vec<usize> = Vec::new();
        let mut i: usize = 0;
        while i < self.layers.len()
            invariant
                i <= self.layers@.len(),
                r@ == self.shape().take(i as int),
            decreases self.layers@.len() - i,
        {
            r.push(self.layers[i].nodes.len());
            i = i + 1;
            assert(r@ =~= self.shape().take(i as int));
        }
        assert(r@ =~= self.shape());
        r
    }

    /// A copy of this network, value for value.
    pub fn duplicate(&self) -> (r: Self)
        ensures
            r.same_values(self),
            r.shape() == self.shape(),
            self.well_formed() ==> r.well_formed(),
    {
        let mut layers: Vec<Layer<W>> = Vec::new();
        let mut i: usize = 0;
        while i < self.layers.len()
            invariant
                i <= self.layers@.len(),
                layers@.len() == i,
                forall|l: int|
                    0 <= l < i ==> (#[trigger] layers@[l]).nodes@.len() == self.layers@[l].nodes@.len(),
                forall|l: int, n: int|
                    0 <= l < i && 0 <= n < self.layers@[l].nodes@.len() ==> same_node(
                        #[trigger] layers@[l].nodes@[n],
                        self.layers@[l].nodes@[n],
                    ),
            decreases self.layers@.len() - i,
        {
            let source = &self.layers[i];
            let mut nodes: Vec<Node<W>> = Vec::new();
            let mut j: usize = 0;
            while j < source.nodes.len()
                invariant
                    j <= source.nodes@.len(),
                    nodes@.len() == j,
                    forall|n: int| 0 <= n < j ==> same_node(#[trigger] nodes@[n], source.nodes@[n]),
                decreases source.nodes@.len() - j,
            {
                let node = &source.nodes[j];
                let mut weights: Vec<W> = Vec::new();
                let mut k: usize = 0;
                while k < node.weights.len()
                    invariant
                        k <= node.weights@.len(),
                        weights@ == node.weights@.take(k as int),
                    decreases node.weights@.len() - k,
                {
                    weights.push(node.weights[k]);
                    k = k + 1;
                    assert(weights@ =~= node.weights@.take(k as int));
                }
                assert(weights@ =~= node.weights@);
                nodes.push(Node { activation: node.activation, bias: node.bias, weights });
                j = j + 1;
            }
            layers.push(Layer { nodes });
            i = i + 1;
        }
        let r = NeuralNetwork { layers };
        assert forall|l: int| 0 <= l < r.layers@.len() implies r.shape()[l] == self.shape()[l] by {
            assert(r.layers@[l].nodes@.len() == self.layers@[l].nodes@.len());
        }
        assert(r.shape() =~= self.shape());
        proof {
            if self.well_formed() {
                assert forall|l: int, n: int|
                    0 <= l < r.layers@.len() && 0 <= n < r.layers@[l].nodes@.len()
                        implies #[trigger] r.layers@[l].nodes@[n].weights@.len() == r.fan_out(l) by {
                    assert(same_node(r.layers@[l].nodes@[n], self.layers@[l].nodes@[n]));
                    if l + 1 < r.layers@.len() {
                        assert(r.layers@[l + 1].nodes@.len() == self.layers@[l + 1].nodes@.len());
                    }
                    assert(self.layers@[l].nodes@[n].weights@.len() == self.fan_out(l));
                }
            }
        }
        assert forall|l: int, n: int|
            0 <= l < r.layers@.len() && 0 <= n < r.layers@[l].nodes@.len() implies {
            &&& (#[trigger] r.layers@[l].nodes@[n]).bias == self.layers@[l].nodes@[n].bias
            &&& r.layers@[l].nodes@[n].weights@ == self.layers@[l].nodes@[n].weights@
            &&& r.layers@[l].nodes@[n].activation == self.layers@[l].nodes@[n].activation
        } by {
            assert(same_node(r.layers@[l].nodes@[n], self.layers@[l].nodes@[n]));
        }
        r
    }

    /// Sets the activation of node `j` of layer `i`, and nothing else.
    fn set_activation(&mut self, i: usize, j: usize, value: W)
        requires
            i < old(self).layers@.len(),
            j < old(self).layers@[i as int].nodes@.len(),
        ensures
            final(self).same_parameters(old(self)),
            old(self).well_formed() ==> final(self).well_formed(),
            forall|l: int|
                0 <= l < old(self).layers@.len() && l != i ==> #[trigger] final(self).layers@[l]
                    == old(self).layers@[l],
            forall|l: int, n: int|
                0 <= l < final(self).layers@.len() && 0 <= n < final(self).layers@[l].nodes@.len()
                    ==> (#[trigger] final(self).layers@[l].nodes@[n]).activation == if l == i && n == j {
                    value
                } else {
                    old(self).layers@[l].nodes@[n].activation
                },
    {
        self.layers[i].nodes[j].activation = value;
    }

    /// Forward propagation. `input[i]` becomes the activation of input node
    /// `i`; input nodes past the end of `input` keep their activation. Then,
    /// layer by layer, node `j` of layer `i` gets
    /// `sigmoid(sum over p of (activation[p] * weights[p][j] + bias[p]))` over
    /// the nodes `p` of layer `i - 1`. Only activations change.
    pub fn process(&mut self, input: &[W])
        requires
            old(self).well_formed(),
            input@.len() <= old(self).layers@[0].nodes@.len(),
        ensures
            final(self).processed(old(self), input@),
    {
        let ghost before = *self;
        let mut p: usize = 0;
        while p < input.len()
            invariant
                before == *old(self),
                p <= input@.len() <= self.layers@[0].nodes@.len(),
                self.well_formed(),
                self.same_parameters(&before),
                forall|j: int|
                    0 <= j < self.layers@[0].nodes@.len() ==> (#[trigger] self.layers@[0].nodes@[j]).activation
                        == if j < p {
                        input@[j]
                    } else {
                        before.layers@[0].nodes@[j].activation
                    },
            decreases input@.len() - p,
        {
            let ghost prior = *self;
            self.set_activation(0, p, input[p]);
            proof {
                lemma_same_parameters_transitive(self, &prior, &before);
            }
            p = p + 1;
        }
        let ghost inputs = self.layers@[0];
        let mut i: usize = 1;
        while i < self.layers.len()
            invariant
                before == *old(self),
                1 <= i <= self.layers@.len(),
                self.well_formed(),
                self.same_parameters(&before),
                self.layers@[0] == inputs,
                self.layers@.len() == before.layers@.len(),
                forall|l: int, n: int|
                    1 <= l < i && 0 <= n < self.layers@[l].nodes@.len()
                        ==> (#[trigger] self.layers@[l].nodes@[n]).activation == propagated(
                        self.layers@[l - 1].nodes@,
                        n,
                    ),
            decreases before.layers@.len() - i,
        {
            let mut j: usize = 0;
            while j < self.layers[i].nodes.len()
                invariant
                    before == *old(self),
                    1 <= i < self.layers@.len(),
                    j <= self.layers@[i as int].nodes@.len(),
                    self.well_formed(),
                    self.same_parameters(&before),
                    self.layers@[0] == inputs,
                    self.layers@.len() == before.layers@.len(),
                    self.layers@[i as int].nodes@.len() == before.layers@[i as int].nodes@.len(),
                    forall|l: int, n: int|
                        1 <= l < i && 0 <= n < self.layers@[l].nodes@.len()
                            ==> (#[trigger] self.layers@[l].nodes@[n]).activation == propagated(
                            self.layers@[l - 1].nodes@,
                            n,
                        ),
                    forall|n: int|
                        0 <= n < j ==> (#[trigger] self.layers@[i as int].nodes@[n]).activation
                            == propagated(self.layers@[i - 1].nodes@, n),
                decreases before.layers@[i as int].nodes@.len() - j,
            {
                let mut sum = W::zero();
                let mut p: usize = 0;
                while p < self.layers[i - 1].nodes.len()
                    invariant
                        1 <= i < self.layers@.len(),
                        j < self.layers@[i as int].nodes@.len(),
                        p <= self.layers@[i - 1].nodes@.len(),
                        self.well_formed(),
                        sum == edge_sum(self.layers@[i - 1].nodes@, j as int, p as int),
                    decreases self.layers@[i - 1].nodes@.len() - p,
                {
                    assert(self.layers@[i - 1].nodes@[p as int].weights@.len() == self.fan_out(i - 1));
                    sum = sum.plus(self.layers[i - 1].nodes[p].weighted(j));
                    p = p + 1;
                }
                let ghost prior = *self;
                self.set_activation(i, j, sum.sigmoid());
                proof {
                    lemma_same_parameters_transitive(self, &prior, &before);
                    assert(self.layers@[i - 1] == prior.layers@[i - 1]);
                    assert forall|l: int, n: int|
                        1 <= l < i && 0 <= n < self.layers@[l].nodes@.len()
                            implies (#[trigger] self.layers@[l].nodes@[n]).activation == propagated(
                            self.layers@[l - 1].nodes@,
                            n,
                        ) by {
                        assert(self.layers@[l] == prior.layers@[l]);
                        assert(self.layers@[l - 1] == prior.layers@[l - 1]);
                    }
                }
                j = j + 1;
            }
            i = i + 1;
        }
        proof {
            lemma_same_parameters_shape(self, &before);
        }
    }

    /// A copy of the output layer's activations.
    pub fn output(&self) -> (r: Vec<W>)
        requires
            self.well_formed(),
        ensures
            r@ == self.outputs(),
    {
        let last = &self.layers[self.layers.len() - 1];
        let mut r: Vec<W> = Vec::new();
        let mut j: usize = 0;
        while j < last.nodes.len()
            invariant
                j <= last.nodes@.len(),
                *last == self.layers@[self.layers@.len() - 1],
                r@ == Seq::new(j as nat, |n: int| last.nodes@[n].activation),
            decreases last.nodes@.len() - j,
        {
            r.push(last.nodes[j].activation);
            j = j + 1;
        }
        assert(r@ =~= self.outputs());
        r
    }
}

} // verus!
