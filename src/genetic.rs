//! The genetic operators: mutation in place and blend crossover.

use vstd::prelude::*;

use crate::network::{layer_fits, lemma_shape, same_node, Layer, NeuralNetwork, Node};
use crate::random::Random;
use crate::scalar::Scalar;

verus! {

/// Mutation draws a number from `[0, MUTATION_DRAW_END)` for each node.
pub const MUTATION_DRAW_END: u32 = 100;

/// A node is perturbed when its mutation draw is above this threshold.
pub const MUTATION_THRESHOLD: u32 = 80;

/// Whether a node whose mutation draw is `draw` gets perturbed.
pub fn selected_for_mutation(draw: u32) -> (r: bool)
    ensures
        r == (draw > MUTATION_THRESHOLD),
{
    draw > MUTATION_THRESHOLD
}

/// The operators of a genetic algorithm over genomes of a fixed shape.
pub trait GeneticAlgorithms: Sized {
    /// The genome's layer sizes.
    spec fn genome_shape(&self) -> Seq<usize>;

    /// The genome's structural invariant.
    spec fn genome_valid(&self) -> bool;

    /// Perturbs some of the genome's values in place; the shape stays.
    fn mutate(&mut self, random: &mut Random)
        requires
            old(self).genome_valid(),
        ensures
            final(self).genome_valid(),
            final(self).genome_shape() == old(self).genome_shape(),
    ;

    /// A new genome that combines `self` and `other`, of their common shape.
    fn crossover(&self, other: &Self) -> (child: Self)
        requires
            self.genome_valid(),
            other.genome_valid(),
            self.genome_shape() == other.genome_shape(),
        ensures
            child.genome_valid(),
            child.genome_shape() == self.genome_shape(),
    ;
}

/// `child` is the mean of `a` and `b`: activation zero, bias and each weight
/// the halved sum of the parents' values at the same position.
pub open spec fn is_blend<W: Scalar>(a: Node<W>, b: Node<W>, child: Node<W>) -> bool {
    &&& child.activation == W::spec_zero()
    &&& child.bias == a.bias.spec_plus(b.bias).spec_halve()
    &&& child.weights@.len() == a.weights@.len()
    &&& forall|k: int|
        0 <= k < child.weights@.len() ==> #[trigger] child.weights@[k] == a.weights@[k].spec_plus(
            b.weights@[k],
        ).spec_halve()
}

/// `child` has the shape of `a`, and each of its nodes is the blend of the
/// nodes of `a` and `b` at the same position.
pub open spec fn is_crossover<W: Scalar>(
    a: &NeuralNetwork<W>,
    b: &NeuralNetwork<W>,
    child: &NeuralNetwork<W>,
) -> bool {
    &&& child.shape() == a.shape()
    &&& forall|l: int, j: int|
        0 <= l < child.layers@.len() && 0 <= j < child.layers@[l].nodes@.len() ==> is_blend(
            a.layers@[l].nodes@[j],
            b.layers@[l].nodes@[j],
            #[trigger] child.layers@[l].nodes@[j],
        )
}

/// `new` is `old` perturbed by the draws `scale`, `offset` and `scales`: bias
/// times `scale` plus `offset`, weight `k` times `scales[k]`, activation kept.
pub open spec fn is_perturbation<W: Scalar>(
    old: Node<W>,
    new: Node<W>,
    scale: W,
    offset: W,
    scales: Seq<W>,
) -> bool {
    &&& new.activation == old.activation
    &&& new.bias == old.bias.spec_times(scale).spec_plus(offset)
    &&& scales.len() == old.weights@.len()
    &&& new.weights@.len() == old.weights@.len()
    &&& forall|k: int|
        0 <= k < new.weights@.len() ==> #[trigger] new.weights@[k] == old.weights@[k].spec_times(
            scales[k],
        )
}

/// What mutation may make of a node: the node unchanged, or perturbed by
/// some draws.
pub open spec fn is_node_mutation<W: Scalar>(old: Node<W>, new: Node<W>) -> bool {
    same_node(old, new) || exists|scale: W, offset: W, scales: Seq<W>|
        #[trigger] is_perturbation(old, new, scale, offset, scales)
}

/// `new` has the shape of `old`, and each of its nodes is a mutation of the
/// node of `old` at the same position.
pub open spec fn is_mutation<W: Scalar>(old: &NeuralNetwork<W>, new: &NeuralNetwork<W>) -> bool {
    &&& new.shape() == old.shape()
    &&& forall|l: int, j: int|
        0 <= l < new.layers@.len() && 0 <= j < new.layers@[l].nodes@.len() ==> is_node_mutation(
            old.layers@[l].nodes@[j],
            #[trigger] new.layers@[l].nodes@[j],
        )
}

impl<W: Scalar> Node<W> {
    /// The mean of two nodes: bias and each weight averaged position by
    /// position, activation reset to zero.
    pub fn blend(&self, other: &Self) -> (r: Self)
        requires
            self.weights@.len() == other.weights@.len(),
        ensures
            is_blend(*self, *other, r),
    {
        let mut weights: Vec<W> = Vec::new();
        let mut k: usize = 0;
        while k < self.weights.len()
            invariant
                k <= self.weights@.len() == other.weights@.len(),
                weights@.len() == k,
                forall|m: int|
                    0 <= m < k ==> #[trigger] weights@[m] == self.weights@[m].spec_plus(
                        other.weights@[m],
                    ).spec_halve(),
            decreases self.weights@.len() - k,
        {
            weights.push(self.weights[k].plus(other.weights[k]).halve());
            k = k + 1;
        }
        Node { activation: W::zero(), bias: self.bias.plus(other.bias).halve(), weights }
    }

    /// Scales the bias by `scale` and adds `offset`, then scales weight `k`
    /// by `scales[k]`.
    pub fn perturb_with(&mut self, scale: W, offset: W, scales: &Vec<W>)
        requires
            scales@.len() == old(self).weights@.len(),
        ensures
            is_perturbation(*old(self), *final(self), scale, offset, scales@),
    {
        self.bias = self.bias.times(scale).plus(offset);
        let mut k: usize = 0;
        while k < self.weights.len()
            invariant
                k <= self.weights@.len() == old(self).weights@.len() == scales@.len(),
                self.activation == old(self).activation,
                self.bias == old(self).bias.spec_times(scale).spec_plus(offset),
                forall|m: int|
                    0 <= m < self.weights@.len() ==> #[trigger] self.weights@[m] == if m < k {
                        old(self).weights@[m].spec_times(scales@[m])
                    } else {
                        old(self).weights@[m]
                    },
            decreases self.weights@.len() - k,
        {
            self.weights[k] = self.weights[k].times(scales[k]);
            k = k + 1;
        }
    }

    /// Draws a bias scale from `[1/2, 1)`, a bias offset from `[0, 1/10)` and
    /// one scale from `[1/2, 1)` per weight, in that order, and applies them.
    fn perturb(&mut self, random: &mut Random)
        ensures
            exists|scale: W, offset: W, scales: Seq<W>|
                #[trigger] is_perturbation(*old(self), *final(self), scale, offset, scales),
    {
        let half = W::ratio(1, 2);
        let one = W::ratio(1, 1);
        let tenth = W::ratio(1, 10);
        let scale = W::uniform(random, half, one);
        let offset = W::uniform(random, W::zero(), tenth);
        let mut scales: Vec<W> = Vec::new();
        let mut k: usize = 0;
        while k < self.weights.len()
            invariant
                k <= self.weights@.len(),
                scales@.len() == k,
            decreases self.weights@.len() - k,
        {
            scales.push(W::uniform(random, half, one));
            k = k + 1;
        }
        self.perturb_with(scale, offset, &scales);
    }
}

impl<W: Scalar> NeuralNetwork<W> {
    /// Perturbs node `j` of layer `i`; every other node stays as it was.
    fn perturb_at(&mut self, i: usize, j: usize, random: &mut Random)
        requires
            i < old(self).layers@.len(),
            j < old(self).layers@[i as int].nodes@.len(),
        ensures
            final(self).shape() == old(self).shape(),
            final(self).layers@.len() == old(self).layers@.len(),
            final(self).layers@[i as int].nodes@.len() == old(self).layers@[i as int].nodes@.len(),
            old(self).well_formed() ==> final(self).well_formed(),
            forall|l: int|
                0 <= l < old(self).layers@.len() && l != i ==> #[trigger] final(self).layers@[l]
                    == old(self).layers@[l],
            forall|n: int|
                0 <= n < old(self).layers@[i as int].nodes@.len() && n != j
                    ==> #[trigger] final(self).layers@[i as int].nodes@[n]
                    == old(self).layers@[i as int].nodes@[n],
            exists|scale: W, offset: W, scales: Seq<W>|
                #[trigger] is_perturbation(
                    old(self).layers@[i as int].nodes@[j as int],
                    final(self).layers@[i as int].nodes@[j as int],
                    scale,
                    offset,
                    scales,
                ),
    {
        self.layers[i].nodes[j].perturb(random);
        assert(self.shape() =~= old(self).shape());
    }
}

impl<W: Scalar> GeneticAlgorithms for NeuralNetwork<W> {
    open spec fn genome_shape(&self) -> Seq<usize> {
        self.shape()
    }

    open spec fn genome_valid(&self) -> bool {
        self.well_formed()
    }

    /// Each node, output nodes included, is perturbed when its draw from
    /// `[0, 100)` is above 80.
    fn mutate(&mut self, random: &mut Random)
        ensures
            is_mutation(old(self), final(self)),
    {
        let ghost start = *self;
        let mut i: usize = 0;
        while i < self.layers.len()
            invariant
                start == *old(self),
                i <= self.layers@.len() == start.layers@.len(),
                self.well_formed(),
                self.shape() == start.shape(),
                forall|l: int| 0 <= l < start.layers@.len() ==> #[trigger] self.layers@[l].nodes@.len()
                    == start.layers@[l].nodes@.len(),
                forall|l: int, n: int|
                    0 <= l < i && 0 <= n < self.layers@[l].nodes@.len() ==> is_node_mutation(
                        start.layers@[l].nodes@[n],
                        #[trigger] self.layers@[l].nodes@[n],
                    ),
                forall|l: int| i <= l < self.layers@.len() ==> #[trigger] self.layers@[l] == start.layers@[l],
            decreases self.layers@.len() - i,
        {
            let mut j: usize = 0;
            while j < self.layers[i].nodes.len()
                invariant
                    start == *old(self),
                    i < self.layers@.len() == start.layers@.len(),
                    j <= self.layers@[i as int].nodes@.len(),
                    self.well_formed(),
                    self.shape() == start.shape(),
                    forall|l: int|
                        0 <= l < start.layers@.len() ==> #[trigger] self.layers@[l].nodes@.len()
                            == start.layers@[l].nodes@.len(),
                    forall|l: int, n: int|
                        0 <= l < i && 0 <= n < self.layers@[l].nodes@.len() ==> is_node_mutation(
                            start.layers@[l].nodes@[n],
                            #[trigger] self.layers@[l].nodes@[n],
                        ),
                    forall|n: int|
                        0 <= n < j ==> is_node_mutation(
                            start.layers@[i as int].nodes@[n],
                            #[trigger] self.layers@[i as int].nodes@[n],
                        ),
                    forall|n: int|
                        j <= n < self.layers@[i as int].nodes@.len()
                            ==> #[trigger] self.layers@[i as int].nodes@[n]
                            == start.layers@[i as int].nodes@[n],
                    forall|l: int|
                        i < l < self.layers@.len() ==> #[trigger] self.layers@[l] == start.layers@[l],
                decreases self.layers@[i as int].nodes@.len() - j,
            {
                let draw = random.rand_range(0..MUTATION_DRAW_END);
                if selected_for_mutation(draw) {
                    let ghost prior = *self;
                    self.perturb_at(i, j, random);
                    proof {
                        assert forall|l: int|
                            0 <= l < start.layers@.len() implies #[trigger] self.layers@[l].nodes@.len()
                                == start.layers@[l].nodes@.len() by {
                            assert(self.shape()[l] == prior.shape()[l]);
                        }
                        assert forall|l: int, n: int|
                            0 <= l < i && 0 <= n < self.layers@[l].nodes@.len() implies is_node_mutation(
                                start.layers@[l].nodes@[n],
                                #[trigger] self.layers@[l].nodes@[n],
                            ) by {
                            assert(self.layers@[l] == prior.layers@[l]);
                        }
                        assert forall|n: int| 0 <= n < j + 1 implies is_node_mutation(
                            start.layers@[i as int].nodes@[n],
                            #[trigger] self.layers@[i as int].nodes@[n],
                        ) by {
                            if n == j {
                                let (scale, offset, scales) = choose|scale: W, offset: W, scales: Seq<W>|
                                    #[trigger] is_perturbation(
                                        prior.layers@[i as int].nodes@[j as int],
                                        self.layers@[i as int].nodes@[j as int],
                                        scale,
                                        offset,
                                        scales,
                                    );
                                assert(is_perturbation(
                                    start.layers@[i as int].nodes@[n],
                                    self.layers@[i as int].nodes@[n],
                                    scale,
                                    offset,
                                    scales,
                                ));
                            }
                        }
                        assert forall|l: int| i < l < self.layers@.len() implies #[trigger] self.layers@[l]
                            == start.layers@[l] by {
                            assert(self.layers@[l] == prior.layers@[l]);
                        }
                    }
                }
                j = j + 1;
            }
            i = i + 1;
        }
        proof {
            lemma_shape(self);
            lemma_shape(&start);
        }
    }

    /// Node by node, the mean of the two parents.
    fn crossover(&self, other: &Self) -> (child: Self)
        ensures
            is_crossover(self, other, &child),
    {
        proof {
            lemma_shape(self);
            lemma_shape(other);
        }
        let mut layers: Vec<Layer<W>> = Vec::new();
        let mut i: usize = 0;
        assert forall|l: int| 0 <= l < self.layers@.len() implies #[trigger] self.layers@[l].nodes@.len()
            == other.layers@[l].nodes@.len() by {
            assert(self.shape()[l] == other.shape()[l]);
        }
        while i < self.layers.len()
            invariant
                i <= self.layers@.len() == other.layers@.len(),
                forall|l: int|
                    0 <= l < self.layers@.len() ==> #[trigger] self.layers@[l].nodes@.len()
                        == other.layers@[l].nodes@.len(),
                self.well_formed(),
                other.well_formed(),
                self.shape() == other.shape(),
                layers@.len() == i,
                forall|l: int|
                    0 <= l < i ==> layer_fits(
                        #[trigger] layers@[l],
                        self.layers@[l].nodes@.len() as int,
                        self.fan_out(l),
                    ),
                forall|l: int, n: int|
                    0 <= l < i && 0 <= n < layers@[l].nodes@.len() ==> is_blend(
                        self.layers@[l].nodes@[n],
                        other.layers@[l].nodes@[n],
                        #[trigger] layers@[l].nodes@[n],
                    ),
            decreases self.layers@.len() - i,
        {
            let mut nodes: Vec<Node<W>> = Vec::new();
            let mut j: usize = 0;
            while j < self.layers[i].nodes.len()
                invariant
                    i < self.layers@.len() == other.layers@.len(),
                    forall|l: int|
                        0 <= l < self.layers@.len() ==> #[trigger] self.layers@[l].nodes@.len()
                            == other.layers@[l].nodes@.len(),
                    j <= self.layers@[i as int].nodes@.len() == other.layers@[i as int].nodes@.len(),
                    self.well_formed(),
                    other.well_formed(),
                    self.shape() == other.shape(),
                    nodes@.len() == j,
                    forall|n: int|
                        0 <= n < j ==> (#[trigger] nodes@[n]).weights@.len() == self.fan_out(i as int),
                    forall|n: int|
                        0 <= n < j ==> is_blend(
                            self.layers@[i as int].nodes@[n],
                            other.layers@[i as int].nodes@[n],
                            #[trigger] nodes@[n],
                        ),
                decreases self.layers@[i as int].nodes@.len() - j,
            {
                assert(self.layers@[i as int].nodes@[j as int].weights@.len() == self.fan_out(i as int));
                assert(other.layers@[i as int].nodes@[j as int].weights@.len() == other.fan_out(i as int));
                nodes.push(self.layers[i].nodes[j].blend(&other.layers[i].nodes[j]));
                j = j + 1;
            }
            layers.push(Layer { nodes });
            i = i + 1;
        }
        let child = NeuralNetwork { layers };
        assert forall|l: int, j: int|
            0 <= l < child.layers@.len() && 0 <= j < child.layers@[l].nodes@.len()
                implies #[trigger] child.layers@[l].nodes@[j].weights@.len() == child.fan_out(l) by {
            assert(layer_fits(child.layers@[l], self.layers@[l].nodes@.len() as int, self.fan_out(l)));
            if l + 1 < child.layers@.len() {
                assert(layer_fits(child.layers@[l + 1], self.layers@[l + 1].nodes@.len() as int, self.fan_out(l + 1)));
            }
        }
        assert forall|l: int| 0 <= l < child.layers@.len() implies child.shape()[l] == self.shape()[l] by {
            assert(layer_fits(child.layers@[l], self.layers@[l].nodes@.len() as int, self.fan_out(l)));
        }
        assert(child.shape() =~= self.shape());
        child
    }
}

} // verus!
