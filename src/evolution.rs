//! The generational cycle: rank the evaluated pool, keep an elite, breed
//! offspring from it, and fill the rest with fresh networks.

use vstd::prelude::*;

use crate::genetic::{is_crossover, is_mutation, GeneticAlgorithms};
use crate::network::NeuralNetwork;
use crate::random::Random;
use crate::scalar::Scalar;

verus! {

/// `order` lists every index of `fitness` once, best first; indices of equal
/// fitness keep their relative order.
pub open spec fn is_ranking(fitness: Seq<u32>, order: Seq<usize>) -> bool {
    &&& order.len() == fitness.len()
    &&& forall|i: int| 0 <= i < order.len() ==> #[trigger] order[i] < fitness.len()
    &&& forall|p: usize| p < fitness.len() ==> #[trigger] order.contains(p)
    &&& forall|i: int, j: int|
        0 <= i < j < order.len() ==> {
            &&& #[trigger] fitness[order[i] as int] >= #[trigger] fitness[order[j] as int]
            &&& fitness[order[i] as int] == fitness[order[j] as int] ==> order[i] < order[j]
        }
}

/// The prefix of a ranking built from the first `k` indices.
spec fn is_partial_ranking(fitness: Seq<u32>, order: Seq<usize>, k: int) -> bool {
    &&& order.len() == k
    &&& forall|i: int| 0 <= i < order.len() ==> #[trigger] order[i] < k
    &&& forall|p: usize| p < k ==> #[trigger] order.contains(p)
    &&& forall|i: int, j: int|
        0 <= i < j < order.len() ==> {
            &&& #[trigger] fitness[order[i] as int] >= #[trigger] fitness[order[j] as int]
            &&& fitness[order[i] as int] == fitness[order[j] as int] ==> order[i] < order[j]
        }
}

/// The indices of `fitness`, from the highest fitness down; ties keep their
/// original order.
pub fn rank_by_fitness(fitness: &Vec<u32>) -> (order: Vec<usize>)
    ensures
        is_ranking(fitness@, order@),
{
    let mut order: Vec<usize> = Vec::new();
    let mut k: usize = 0;
    while k < fitness.len()
        invariant
            k <= fitness@.len(),
            is_partial_ranking(fitness@, order@, k as int),
        decreases fitness@.len() - k,
    {
        let mut pos: usize = 0;
        while pos < order.len() && fitness[order[pos]] >= fitness[k]
            invariant
                k < fitness@.len(),
                pos <= order@.len(),
                is_partial_ranking(fitness@, order@, k as int),
                forall|q: int| 0 <= q < pos ==> fitness@[#[trigger] order@[q] as int] >= fitness@[k as int],
            decreases order@.len() - pos,
        {
            pos = pos + 1;
        }
        let ghost prior = order@;
        proof {
            assert forall|q: int| pos <= q < prior.len() implies fitness@[#[trigger] prior[q] as int]
                < fitness@[k as int] by {
                if q > pos {
                    assert(fitness@[prior[pos as int] as int] >= fitness@[prior[q] as int]);
                }
            }
        }
        order.insert(pos, k);
        proof {
            let next = order@;
            assert(next == prior.insert(pos as int, k));
            assert forall|p: usize| p < k + 1 implies #[trigger] next.contains(p) by {
                if p == k {
                    assert(next[pos as int] == p);
                } else {
                    assert(prior.contains(p));
                    let i = choose|i: int| 0 <= i < prior.len() && #[trigger] prior[i] == p;
                    if i < pos {
                        assert(next[i] == p);
                    } else {
                        assert(next[i + 1] == p);
                    }
                }
            }
            assert forall|i: int, j: int| 0 <= i < j < next.len() implies {
                &&& #[trigger] fitness@[next[i] as int] >= #[trigger] fitness@[next[j] as int]
                &&& fitness@[next[i] as int] == fitness@[next[j] as int] ==> next[i] < next[j]
            } by {
                if j < pos {
                    assert(next[i] == prior[i] && next[j] == prior[j]);
                } else if j == pos {
                    assert(next[i] == prior[i]);
                } else if i < pos {
                    assert(next[i] == prior[i] && next[j] == prior[j - 1]);
                } else if i == pos {
                    assert(next[j] == prior[j - 1]);
                } else {
                    assert(next[i] == prior[i - 1] && next[j] == prior[j - 1]);
                }
            }
        }
        k = k + 1;
    }
    order
}

/// Where a member of a new generation comes from; indices refer to the pool
/// of the generation before.
#[derive(Clone, Copy, Debug, PartialEq, Eq, Structural)]
pub enum Origin {
    /// A copy of a pool member.
    Elite(usize),
    /// The crossover of a parent and a partner, then mutated.
    Offspring(usize, usize),
    /// A newly drawn network.
    Fresh,
}

/// The sizes of the generational cycle. A new generation is the `elite` best
/// of the pool, then `elite * replicas` offspring (the elite replicated
/// `replicas` times, each replica crossed with a partner drawn from the
/// `partners` best), then fresh networks up to `population`.
#[derive(Clone, Copy, Debug, PartialEq, Eq, Structural)]
pub struct Evolution {
    pub population: usize,
    pub elite: usize,
    pub replicas: usize,
    pub partners: u32,
}

/// A new population, with the origin of each member.
pub struct Generation<W> {
    pub networks: Vec<NeuralNetwork<W>>,
    pub origins: Vec<Origin>,
}

impl Evolution {
    /// The elite and its offspring fit in the population, and partners are
    /// drawn from a non-empty part of the elite.
    pub open spec fn valid(&self) -> bool {
        &&& 1 <= self.partners
        &&& self.partners as int <= self.elite
        &&& self.elite + self.elite * self.replicas <= self.population
    }

    /// Number of offspring in each generation.
    pub open spec fn offspring_spec(&self) -> int {
        self.elite * self.replicas
    }

    /// Number of fresh networks in each generation.
    pub open spec fn fresh_spec(&self) -> int {
        self.population - self.elite - self.elite * self.replicas
    }

    /// A cycle of the given sizes, or `None` where they are not valid.
    pub fn new(population: usize, elite: usize, replicas: usize, partners: u32) -> (r: Option<Self>)
        ensures
            r is Some <==> (Evolution { population, elite, replicas, partners }).valid(),
            r is Some ==> r->Some_0 == (Evolution { population, elite, replicas, partners }),
    {
        let cycle = Evolution { population, elite, replicas, partners };
        if partners < 1 || partners as usize > elite {
            return None;
        }
        match elite.checked_mul(replicas) {
            Some(offspring) => {
                if offspring <= population && elite <= population - offspring {
                    Some(cycle)
                } else {
                    None
                }
            },
            None => {
                proof {
                    if elite > 0 {
                        assert(elite * replicas >= replicas) by (nonlinear_arith)
                            requires
                                elite > 0,
                        ;
                    }
                }
                None
            },
        }
    }

    /// Number of offspring in each generation: `elite * replicas`.
    pub fn offspring(&self) -> (r: usize)
        requires
            self.valid(),
        ensures
            r == self.offspring_spec(),
    {
        self.elite * self.replicas
    }

    /// Number of fresh networks in each generation: what the elite and the
    /// offspring leave of the population.
    pub fn fresh(&self) -> (r: usize)
        requires
            self.valid(),
        ensures
            r == self.fresh_spec(),
    {
        self.population - self.elite - self.elite * self.replicas
    }

    /// Offspring `s` of a generation laid out after `order`: its parent is
    /// the elite member of rank `s % elite`, its partner one of rank below
    /// `partners`, and its network a mutation of their crossover.
    pub open spec fn is_offspring<W: Scalar>(
        &self,
        pool: Seq<NeuralNetwork<W>>,
        order: Seq<usize>,
        s: int,
        network: NeuralNetwork<W>,
        origin: Origin,
    ) -> bool {
        match origin {
            Origin::Offspring(parent, partner) => {
                &&& parent == order[s % (self.elite as int)]
                &&& exists|p: int| 0 <= p < self.partners && #[trigger] order[p] == partner
                &&& exists|child: NeuralNetwork<W>|
                    is_crossover(&pool[parent as int], &pool[partner as int], &child)
                        && #[trigger] is_mutation(&child, &network)
            },
            _ => false,
        }
    }

    /// The members of a new generation follow `order`, a ranking of the
    /// pool: the elite are copies of the best, in rank order; the offspring
    /// follow as `is_offspring` says; the rest are fresh.
    pub open spec fn follows_ranking<W: Scalar>(
        &self,
        pool: Seq<NeuralNetwork<W>>,
        order: Seq<usize>,
        networks: Seq<NeuralNetwork<W>>,
        origins: Seq<Origin>,
    ) -> bool {
        &&& forall|i: int|
            0 <= i < self.elite ==> {
                &&& #[trigger] origins[i] == Origin::Elite(order[i])
                &&& networks[i].same_values(&pool[order[i] as int])
            }
        &&& forall|s: int|
            0 <= s < self.offspring_spec() ==> self.is_offspring(
                pool,
                order,
                s,
                networks[self.elite + s],
                #[trigger] origins[self.elite + s],
            )
        &&& forall|i: int|
            self.elite + self.offspring_spec() <= i < self.population ==> #[trigger] origins[i]
                == Origin::Fresh
    }

    /// What `next_generation` hands back: a population of the configured
    /// size, every member of the given shape, laid out after a ranking of
    /// the pool by fitness.
    pub open spec fn is_next_generation<W: Scalar>(
        &self,
        pool: Seq<NeuralNetwork<W>>,
        fitness: Seq<u32>,
        structure: Seq<usize>,
        networks: Seq<NeuralNetwork<W>>,
        origins: Seq<Origin>,
    ) -> bool {
        &&& networks.len() == self.population
        &&& origins.len() == self.population
        &&& forall|i: int|
            0 <= i < networks.len() ==> (#[trigger] networks[i]).well_formed() && networks[i].shape()
                == structure
        &&& exists|order: Seq<usize>|
            is_ranking(fitness, order) && #[trigger] self.follows_ranking(pool, order, networks, origins)
    }

    /// One generation transition over a pool of evaluated networks, with
    /// `fitness[i]` the score of `pool[i]` (higher is better).
    pub fn next_generation<W: Scalar>(
        &self,
        pool: &Vec<NeuralNetwork<W>>,
        fitness: &Vec<u32>,
        structure: &[usize],
        random: &mut Random,
    ) -> (r: Generation<W>)
        requires
            self.valid(),
            pool@.len() == fitness@.len(),
            pool@.len() >= self.population,
            structure@.len() >= 2,
            forall|i: int|
                0 <= i < pool@.len() ==> (#[trigger] pool@[i]).well_formed() && pool@[i].shape()
                    == structure@,
        ensures
            self.is_next_generation(pool@, fitness@, structure@, r.networks@, r.origins@),
    {
        let order = rank_by_fitness(fitness);
        let offspring = self.offspring();
        let fresh = self.fresh();
        let mut networks: Vec<NeuralNetwork<W>> = Vec::new();
        let mut origins: Vec<Origin> = Vec::new();
        let mut i: usize = 0;
        while i < self.elite
            invariant
                self.valid(),
                is_ranking(fitness@, order@),
                pool@.len() == fitness@.len() >= self.population,
                forall|m: int|
                    0 <= m < pool@.len() ==> (#[trigger] pool@[m]).well_formed() && pool@[m].shape()
                        == structure@,
                i <= self.elite,
                networks@.len() == i,
                origins@.len() == i,
                forall|m: int|
                    0 <= m < networks@.len() ==> (#[trigger] networks@[m]).well_formed()
                        && networks@[m].shape() == structure@,
                forall|m: int|
                    0 <= m < i ==> {
                        &&& #[trigger] origins@[m] == Origin::Elite(order@[m])
                        &&& networks@[m].same_values(&pool@[order@[m] as int])
                    },
            decreases self.elite - i,
        {
            let best = order[i];
            networks.push(pool[best].duplicate());
            origins.push(Origin::Elite(best));
            i = i + 1;
        }
        let mut s: usize = 0;
        while s < offspring
            invariant
                self.valid(),
                offspring == self.offspring_spec(),
                is_ranking(fitness@, order@),
                pool@.len() == fitness@.len() >= self.population,
                forall|m: int|
                    0 <= m < pool@.len() ==> (#[trigger] pool@[m]).well_formed() && pool@[m].shape()
                        == structure@,
                s <= offspring,
                networks@.len() == self.elite + s,
                origins@.len() == self.elite + s,
                forall|m: int|
                    0 <= m < networks@.len() ==> (#[trigger] networks@[m]).well_formed()
                        && networks@[m].shape() == structure@,
                forall|m: int|
                    0 <= m < self.elite ==> {
                        &&& #[trigger] origins@[m] == Origin::Elite(order@[m])
                        &&& networks@[m].same_values(&pool@[order@[m] as int])
                    },
                forall|t: int|
                    0 <= t < s ==> self.is_offspring(
                        pool@,
                        order@,
                        t,
                        networks@[self.elite + t],
                        #[trigger] origins@[self.elite + t],
                    ),
            decreases offspring - s,
        {
            let parent = order[s % self.elite];
            let draw = random.rand_range(0..self.partners);
            let partner = order[draw as usize];
            let mut child = pool[parent].crossover(&pool[partner]);
            let ghost blended = child;
            child.mutate(random);
            assert(is_crossover(&pool@[parent as int], &pool@[partner as int], &blended));
            assert(is_mutation(&blended, &child));
            networks.push(child);
            origins.push(Origin::Offspring(parent, partner));
            assert(origins@[self.elite + s] == Origin::Offspring(parent, partner));
            assert(order@[draw as int] == partner);
            s = s + 1;
        }
        let mut f: usize = 0;
        while f < fresh
            invariant
                self.valid(),
                offspring == self.offspring_spec(),
                fresh == self.fresh_spec(),
                structure@.len() >= 2,
                f <= fresh,
                networks@.len() == self.elite + offspring + f,
                origins@.len() == self.elite + offspring + f,
                forall|m: int|
                    0 <= m < networks@.len() ==> (#[trigger] networks@[m]).well_formed()
                        && networks@[m].shape() == structure@,
                forall|m: int|
                    0 <= m < self.elite ==> {
                        &&& #[trigger] origins@[m] == Origin::Elite(order@[m])
                        &&& networks@[m].same_values(&pool@[order@[m] as int])
                    },
                forall|t: int|
                    0 <= t < offspring ==> self.is_offspring(
                        pool@,
                        order@,
                        t,
                        networks@[self.elite + t],
                        #[trigger] origins@[self.elite + t],
                    ),
                forall|m: int|
                    self.elite + offspring <= m < networks@.len() ==> #[trigger] origins@[m]
                        == Origin::Fresh,
            decreases fresh - f,
        {
            networks.push(NeuralNetwork::new(structure, random));
            origins.push(Origin::Fresh);
            f = f + 1;
        }
        let r = Generation { networks, origins };
        assert(self.follows_ranking(pool@, order@, r.networks@, r.origins@));
        r
    }
}

impl Default for Evolution {
    /// A population of 1000: the 10 best, 50 replicas of them crossed with
    /// partners among the 3 best, and 490 fresh networks.
    fn default() -> (r: Self)
        ensures
            r == (Evolution { population: 1000, elite: 10, replicas: 50, partners: 3 }),
            r.valid(),
    {
        Evolution { population: 1000, elite: 10, replicas: 50, partners: 3 }
    }
}

/// The three parts of a generation (elite, offspring, fresh) always add up to
/// the configured population, whatever the elite and replica counts.
pub proof fn lemma_generation_size(cycle: Evolution)
    requires
        cycle.valid(),
    ensures
        cycle.elite + cycle.offspring_spec() + cycle.fresh_spec() == cycle.population,
        cycle.fresh_spec() >= 0,
{
}

/// Elitism: where fitness is a function of a network's values, the first
/// member of the new generation scores at least as high as every member of
/// the pool it came from, so the best fitness never drops from one
/// generation to the next.
pub proof fn lemma_best_fitness_never_drops<W: Scalar>(
    cycle: Evolution,
    pool: Seq<NeuralNetwork<W>>,
    fitness: Seq<u32>,
    structure: Seq<usize>,
    networks: Seq<NeuralNetwork<W>>,
    origins: Seq<Origin>,
    score: spec_fn(NeuralNetwork<W>) -> u32,
)
    requires
        cycle.valid(),
        cycle.is_next_generation(pool, fitness, structure, networks, origins),
        pool.len() == fitness.len() <= usize::MAX,
        forall|p: int| 0 <= p < pool.len() ==> fitness[p] == score(#[trigger] pool[p]),
        forall|a: NeuralNetwork<W>, b: NeuralNetwork<W>|
            #[trigger] a.same_values(&b) ==> score(a) == score(b),
    ensures
        forall|p: int| 0 <= p < pool.len() ==> score(networks[0]) >= #[trigger] fitness[p],
{
    let order = choose|order: Seq<usize>|
        is_ranking(fitness, order) && #[trigger] cycle.follows_ranking(pool, order, networks, origins);
    assert forall|p: int| 0 <= p < pool.len() implies score(networks[0]) >= #[trigger] fitness[p] by {
        assert(origins[0] == Origin::Elite(order[0]));
        assert(networks[0].same_values(&pool[order[0] as int]));
        assert(order[0] < fitness.len());
        assert(score(networks[0]) == score(pool[order[0] as int]));
        assert(score(networks[0]) == fitness[order[0] as int]);
        assert(order.contains(p as usize));
        let i = choose|i: int| 0 <= i < order.len() && order[i] == p as usize;
        if i > 0 {
            assert(fitness[order[0] as int] >= fitness[order[i] as int]);
        }
        assert(fitness[order[i] as int] == fitness[p]);
    }
}

} // verus!
