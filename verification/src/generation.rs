use vstd::prelude::*;
use vstd::seq_lib::group_to_multiset_ensures;
use crate::dataset::Dataset;
use crate::individual::{lemma_tour_length_bound, Individual};
use crate::rng::rand_below_u128;
use crate::utils::{comma_display_len, comma_width};
use crate::InvariantViolation;

verus! {

/// Largest population the engine's fixed-width arithmetic is sized for.
pub const MAX_POPULATION: usize = 0x100000;

/// Tour lengths never decrease from the front of the population.
pub open spec fn sorted_by_length(pop: Seq<Individual>) -> bool {
    forall|p: int, q: int| 0 <= p <= q < pop.len() ==> pop[p].length <= pop[q].length
}

/// The raw selection weight of the tour at `i`: its headroom below the
/// worst length, squared, plus a floor that keeps every tour selectable
/// whenever the lengths spread out.
pub open spec fn spec_weight(pop: Seq<Individual>, i: int) -> int {
    let mx = pop[pop.len() - 1].length as int;
    let mn = pop[0].length as int;
    let delta = ((mx - mn) * (mx - mn)) / (pop.len() as int);
    (mx - pop[i].length) * (mx - pop[i].length) + delta
}

/// The sum of the selection weights of the tours at `0..=i`.
pub open spec fn spec_cumulative(pop: Seq<Individual>, i: int) -> int
    decreases i + 1,
{
    if i < 0 {
        0
    } else {
        spec_cumulative(pop, i - 1) + spec_weight(pop, i)
    }
}

/// In a sorted population every selection weight is non-negative, so the
/// cumulative weights never decrease; and as soon as two lengths differ,
/// the best tour's weight, and with it every cumulative weight, is
/// positive.
pub proof fn lemma_selection_distribution_valid(pop: Seq<Individual>, i: int, j: int)
    requires
        sorted_by_length(pop),
        1 <= pop.len(),
        -1 <= i <= j < pop.len(),
    ensures
        0 <= spec_cumulative(pop, i) <= spec_cumulative(pop, j),
        pop[0].length < pop[pop.len() - 1].length && j >= 0 ==> spec_cumulative(pop, j) > 0,
    decreases j - i,
{
    let mx = pop[pop.len() - 1].length as int;
    let mn = pop[0].length as int;
    assert forall|k: int| 0 <= k < pop.len() implies spec_weight(pop, k) >= 0 by {
        let d = mx - pop[k].length as int;
        assert(d >= 0);
        assert(d * d >= 0) by (nonlinear_arith);
        assert((mx - mn) * (mx - mn) >= 0) by (nonlinear_arith);
        assert(((mx - mn) * (mx - mn)) / (pop.len() as int) >= 0);
    };
    lemma_cumulative_nonneg(pop, i);
    if i < j {
        lemma_selection_distribution_valid(pop, i, j - 1);
        assert(spec_cumulative(pop, j) == spec_cumulative(pop, j - 1) + spec_weight(pop, j));
    }
    if j >= 0 && mn < mx {
        assert(spec_weight(pop, 0) > 0) by {
            assert(mx - mn >= 1);
            assert((mx - mn) * (mx - mn) >= 1) by (nonlinear_arith)
                requires
                    mx - mn >= 1,
            ;
        };
        lemma_cumulative_includes_first(pop, j);
    }
}

/// Cumulative weights of a sorted population never go below zero.
proof fn lemma_cumulative_nonneg(pop: Seq<Individual>, j: int)
    requires
        sorted_by_length(pop),
        1 <= pop.len(),
        -1 <= j < pop.len(),
    ensures
        0 <= spec_cumulative(pop, j),
    decreases j + 1,
{
    let mx = pop[pop.len() - 1].length as int;
    let mn = pop[0].length as int;
    if j < 0 {
        assert(spec_cumulative(pop, -1) == 0);
    } else {
        lemma_cumulative_nonneg(pop, j - 1);
        let d = mx - pop[j].length as int;
        assert(d * d >= 0) by (nonlinear_arith);
        assert((mx - mn) * (mx - mn) >= 0) by (nonlinear_arith);
        assert(spec_weight(pop, j) >= 0);
        assert(spec_cumulative(pop, j) == spec_cumulative(pop, j - 1) + spec_weight(pop, j));
    }
}

/// Each cumulative weight is at least the first tour's weight.
proof fn lemma_cumulative_includes_first(pop: Seq<Individual>, j: int)
    requires
        sorted_by_length(pop),
        1 <= pop.len(),
        0 <= j < pop.len(),
    ensures
        spec_cumulative(pop, j) >= spec_weight(pop, 0),
    decreases j,
{
    let mx = pop[pop.len() - 1].length as int;
    let mn = pop[0].length as int;
    assert forall|k: int| 0 <= k < pop.len() implies spec_weight(pop, k) >= 0 by {
        let d = mx - pop[k].length as int;
        assert(d * d >= 0) by (nonlinear_arith);
        assert((mx - mn) * (mx - mn) >= 0) by (nonlinear_arith);
        assert(((mx - mn) * (mx - mn)) / (pop.len() as int) >= 0);
    };
    if j == 0 {
        assert(spec_cumulative(pop, -1) == 0);
        assert(spec_cumulative(pop, 0) == spec_weight(pop, 0));
    } else {
        lemma_cumulative_includes_first(pop, j - 1);
        assert(spec_cumulative(pop, j) == spec_cumulative(pop, j - 1) + spec_weight(pop, j));
    }
}

/// Bounds every weight and cumulative weight of a population of bounded
/// tour lengths, so the 128-bit arithmetic below cannot overflow.
proof fn lemma_cumulative_bounds(pop: Seq<Individual>, j: int)
    requires
        sorted_by_length(pop),
        1 <= pop.len() <= MAX_POPULATION,
        forall|i: int| 0 <= i < pop.len() ==> (#[trigger] pop[i]).length <= 0x10000000000000,
        -1 <= j < pop.len(),
    ensures
        0 <= spec_cumulative(pop, j) <= (j + 1) * 0x200000000000000000000000000,
    decreases j + 1,
{
    if j >= 0 {
        lemma_cumulative_bounds(pop, j - 1);
        let mx = pop[pop.len() - 1].length as int;
        let mn = pop[0].length as int;
        let d = mx - pop[j].length as int;
        assert(0 <= d * d <= 0x100000000000000000000000000) by (nonlinear_arith)
            requires
                0 <= d <= 0x10000000000000,
        ;
        assert(0 <= (mx - mn) * (mx - mn) <= 0x100000000000000000000000000) by (nonlinear_arith)
            requires
                0 <= mx - mn <= 0x10000000000000,
        ;
        assert(0 <= ((mx - mn) * (mx - mn)) / (pop.len() as int) <= 0x100000000000000000000000000);
    }
}

/// A population of tours sorted from best to worst, with the cumulative
/// selection weights that parent selection draws against.
pub struct Generation {
    pub id: usize,
    pub number_of_generations: usize,
    pub number_of_generations_display_width: usize,
    pub population_size: usize,
    pub population: Vec<Individual>,
    pub fitnesses: Vec<u128>,
}

impl Generation {
    /// Everything construction and evolution establish: a sorted population
    /// of well-formed tours and selection weights that match it.
    pub open spec fn wf(&self, dataset: &Dataset) -> bool {
        &&& 1 <= self.population_size <= MAX_POPULATION
        &&& self.population@.len() == self.population_size
        &&& forall|i: int|
            0 <= i < self.population@.len() ==> (#[trigger] self.population@[i]).wf(dataset)
        &&& sorted_by_length(self.population@)
        &&& self.fitnesses@.len() == self.population_size
        &&& forall|i: int|
            0 <= i < self.fitnesses@.len() ==> (#[trigger] self.fitnesses@[i]) as int
                == spec_cumulative(self.population@, i)
        &&& self.number_of_generations_display_width == comma_width(
            self.number_of_generations as u64,
        )
    }

    /// The sum of all selection weights.
    pub open spec fn spec_total(&self) -> int {
        spec_cumulative(self.population@, self.population@.len() - 1)
    }
}

/// Every element of a reordered sequence occurs in the sequence it came
/// from.
proof fn lemma_multiset_membership<A>(s1: Seq<A>, s2: Seq<A>)
    requires
        s1.to_multiset() == s2.to_multiset(),
    ensures
        forall|i: int| 0 <= i < s2.len() ==> s1.contains(#[trigger] s2[i]),
{
    broadcast use group_to_multiset_ensures;

    assert forall|i: int| 0 <= i < s2.len() implies s1.contains(#[trigger] s2[i]) by {
        assert(s2.contains(s2[i]));
        assert(s2.to_multiset().count(s2[i]) > 0);
    };
}

/// Selection sort: repeatedly moves the shortest remaining tour over.
fn sort_population(population: Vec<Individual>) -> (sorted: Vec<Individual>)
    ensures
        sorted@.to_multiset() == population@.to_multiset(),
        sorted@.len() == population@.len(),
        sorted_by_length(sorted@),
{
    broadcast use group_to_multiset_ensures;

    let ghost orig = population@;
    let mut work = population;
    let mut out: Vec<Individual> = Vec::new();
    while work.len() > 0
        invariant
            out@.to_multiset().add(work@.to_multiset()) == orig.to_multiset(),
            out@.len() + work@.len() == orig.len(),
            sorted_by_length(out@),
            forall|i: int, j: int|
                0 <= i < out@.len() && 0 <= j < work@.len() ==> out@[i].length
                    <= work@[j].length,
        decreases work@.len(),
    {
        let mut mi: usize = 0;
        let mut t: usize = 1;
        while t < work.len()
            invariant
                mi < t <= work@.len(),
                work@.len() >= 1,
                forall|j: int| 0 <= j < t ==> work@[mi as int].length <= (#[trigger] work@[j]).length,
            decreases work@.len() - t,
        {
            if work[t].length < work[mi].length {
                mi = t;
            }
            t = t + 1;
        }
        let ghost old_work = work@;
        let ghost old_out = out@;
        let item = work.remove(mi);
        out.push(item);
        proof {
            broadcast use group_to_multiset_ensures;
            broadcast use vstd::multiset::group_multiset_axioms;

            assert(work@ == old_work.remove(mi as int));
            assert(old_work.remove(mi as int).to_multiset() == old_work.to_multiset().remove(
                old_work[mi as int],
            ));
            assert(out@ == old_out.push(item));
            assert(old_out.push(item).to_multiset() =~= old_out.to_multiset().insert(item));
            assert(out@.to_multiset().add(work@.to_multiset()) =~= orig.to_multiset()) by {
                assert(old_work.to_multiset().count(item) > 0) by {
                    assert(old_work.contains(old_work[mi as int]));
                };
            };
            assert forall|i: int, j: int|
                0 <= i < out@.len() && 0 <= j < work@.len() implies out@[i].length
                <= work@[j].length by {
                assert(old_work.contains(old_work[mi as int]));
                if j < mi {
                    assert(work@[j] == old_work[j]);
                } else {
                    assert(work@[j] == old_work[j + 1]);
                }
                if i < old_out.len() {
                    assert(out@[i] == old_out[i]);
                } else {
                    assert(out@[i] == item);
                }
            };
        }
    }
    out
}


/// Builds the cumulative selection weights of a sorted population: each
/// tour's weight is its squared headroom below the worst length plus the
/// spread-derived floor, and the entries are the running sums.
fn compute_fitnesses(population: &Vec<Individual>, population_size: usize) -> (fitnesses: Vec<
    u128,
>)
    requires
        1 <= population_size <= MAX_POPULATION,
        population@.len() == population_size,
        sorted_by_length(population@),
        forall|i: int|
            0 <= i < population@.len() ==> (#[trigger] population@[i]).length
                <= 0x10000000000000,
    ensures
        fitnesses@.len() == population_size,
        forall|i: int|
            0 <= i < population_size ==> (#[trigger] fitnesses@[i]) as int == spec_cumulative(
                population@,
                i,
            ),
{
    let mx = population[population_size - 1].length;
    let mn = population[0].length;
    let diff = mx - mn;
    proof {
        assert((diff as int) * (diff as int) <= 0x100000000000000000000000000)
            by (nonlinear_arith)
            requires
                0 <= diff as int <= 0x10000000000000,
        ;
    }
    let delta: u128 = ((diff as u128) * (diff as u128)) / (population_size as u128);
    let mut fitnesses: Vec<u128> = Vec::new();
    let mut cum: u128 = 0;
    let mut i: usize = 0;
    while i < population_size
        invariant
            1 <= population_size <= MAX_POPULATION,
            population@.len() == population_size,
            sorted_by_length(population@),
            forall|k: int|
                0 <= k < population@.len() ==> (#[trigger] population@[k]).length
                    <= 0x10000000000000,
            i <= population_size,
            fitnesses@.len() == i,
            forall|k: int|
                0 <= k < i ==> (#[trigger] fitnesses@[k]) as int == spec_cumulative(
                    population@,
                    k,
                ),
            cum as int == spec_cumulative(population@, i as int - 1),
            mx == population@[population_size - 1].length,
            mn == population@[0].length,
            delta as int == ((mx as int - mn as int) * (mx as int - mn as int)) / (
            population_size as int),
        decreases population_size - i,
    {
        let d = mx - population[i].length;
        proof {
            assert((d as int) * (d as int) <= 0x100000000000000000000000000)
                by (nonlinear_arith)
                requires
                    0 <= d as int <= 0x10000000000000,
            ;
            lemma_cumulative_bounds(population@, i as int);
            assert(spec_cumulative(population@, i as int) == spec_cumulative(
                population@,
                i as int - 1,
            ) + spec_weight(population@, i as int));
        }
        let w: u128 = (d as u128) * (d as u128) + delta;
        cum = cum + w;
        fitnesses.push(cum);
        i = i + 1;
    }
    fitnesses
}

impl Generation {
    /// A first generation: `population_size` random tours, sorted by
    /// ascending length, with their selection weights.
    pub fn new(
        id: usize,
        number_of_generations: usize,
        population_size: usize,
        dataset: &Dataset,
        rng: &mut rand::rngs::StdRng,
    ) -> (g: Generation)
        requires
            dataset.wf(),
            1 <= population_size <= MAX_POPULATION,
        ensures
            g.wf(dataset),
            g.id == id,
            g.number_of_generations == number_of_generations,
            g.population_size == population_size,
    {
        let mut population: Vec<Individual> = Vec::new();
        let mut t: usize = 0;
        while t < population_size
            invariant
                dataset.wf(),
                t <= population_size,
                population@.len() == t,
                forall|k: int|
                    0 <= k < population@.len() ==> (#[trigger] population@[k]).wf(dataset),
            decreases population_size - t,
        {
            population.push(Individual::new(dataset, rng));
            t = t + 1;
        }
        let ghost unsorted = population@;
        let population = sort_population(population);
        proof {
            lemma_multiset_membership(unsorted, population@);
            assert forall|k: int| 0 <= k < population@.len() implies (
            #[trigger] population@[k]).wf(dataset) && population@[k].length
                <= 0x10000000000000 by {
                let j = choose|j: int|
                    0 <= j < unsorted.len() && unsorted[j] == population@[k];
                lemma_tour_length_bound(dataset, &population@[k]);
            };
        }
        let fitnesses = compute_fitnesses(&population, population_size);
        let number_of_generations_display_width = comma_display_len(
            number_of_generations as u64,
        );
        Generation {
            id,
            number_of_generations,
            number_of_generations_display_width,
            population_size,
            population,
            fitnesses,
        }
    }

    /// The first tour whose cumulative weight reaches the draw `x`.
    pub fn select_parent_index(&self, x: u128) -> (idx: usize)
        requires
            self.fitnesses@.len() >= 1,
            (x as int) < self.fitnesses@[self.fitnesses@.len() - 1] as int,
        ensures
            idx < self.fitnesses@.len(),
            x <= self.fitnesses@[idx as int],
            forall|j: int| 0 <= j < idx ==> (#[trigger] self.fitnesses@[j]) < x,
    {
        let n = self.fitnesses.len();
        let mut idx: usize = 0;
        while self.fitnesses[idx] < x
            invariant
                idx < n,
                n == self.fitnesses@.len(),
                (x as int) < self.fitnesses@[n - 1] as int,
                forall|j: int| 0 <= j < idx ==> (#[trigger] self.fitnesses@[j]) < x,
            decreases n - idx,
        {
            idx = idx + 1;
        }
        idx
    }

    /// Draws uniformly against the cumulative weights and hands back the
    /// first tour whose weight reaches the draw. When every weight is zero
    /// no draw can be made: that is a defect of the population, not a
    /// runtime condition.
    pub fn select_parent<'a>(&'a self, rng: &mut rand::rngs::StdRng) -> (r: Result<
        &'a Individual,
        InvariantViolation,
    >)
        requires
            1 <= self.population_size,
            self.population@.len() == self.population_size,
            self.fitnesses@.len() == self.population_size,
            forall|i: int|
                0 <= i < self.fitnesses@.len() ==> (#[trigger] self.fitnesses@[i]) as int
                    == spec_cumulative(self.population@, i),
        ensures
            r is Ok <==> self.spec_total() > 0,
            r matches Err(e) ==> e == InvariantViolation::DegenerateSelection,
            r matches Ok(ind) ==> exists|i: int|
                0 <= i < self.population@.len() && *ind == self.population@[i],
    {
        let total = self.fitnesses[self.population_size - 1];
        if total == 0 {
            return Err(InvariantViolation::DegenerateSelection);
        }
        let x = rand_below_u128(rng, total);
        let idx = self.select_parent_index(x);
        Ok(&self.population[idx])
    }

    /// An empty shell for the generation that follows `previous_generation`.
    pub fn new_empty_from_previous(previous_generation: &Generation) -> (g: Generation)
        requires
            previous_generation.id < usize::MAX,
        ensures
            g.id == previous_generation.id + 1,
            g.number_of_generations == previous_generation.number_of_generations,
            g.number_of_generations_display_width
                == previous_generation.number_of_generations_display_width,
            g.population_size == previous_generation.population_size,
            g.population@.len() == 0,
            g.fitnesses@.len() == 0,
    {
        Generation {
            id: previous_generation.id + 1,
            number_of_generations: previous_generation.number_of_generations,
            number_of_generations_display_width:
                previous_generation.number_of_generations_display_width,
            population_size: previous_generation.population_size,
            population: Vec::new(),
            fitnesses: Vec::new(),
        }
    }

    /// One step of the search: fills a population of the same size with
    /// children of selected parents - recombination plus mutation while the
    /// generation is younger than `crossover_generation_limit`, mutation
    /// alone afterwards - then sorts it and rebuilds the selection weights.
    pub fn evolve(
        &self,
        rng: &mut rand::rngs::StdRng,
        dataset: &Dataset,
        neighbors_distance_lookup: usize,
        best_out_of: usize,
        crossover_generation_limit: usize,
    ) -> (r: Result<Generation, InvariantViolation>)
        requires
            dataset.wf(),
            self.wf(dataset),
            1 <= neighbors_distance_lookup < dataset.size,
            1 <= best_out_of,
            self.id < usize::MAX,
        ensures
            r is Ok <==> self.spec_total() > 0,
            r matches Err(e) ==> e == InvariantViolation::DegenerateSelection,
            r matches Ok(g) ==> g.wf(dataset) && g.id == self.id + 1 && g.population_size
                == self.population_size && g.number_of_generations
                == self.number_of_generations,
    {
        let total = self.fitnesses[self.population_size - 1];
        if total == 0 {
            return Err(InvariantViolation::DegenerateSelection);
        }
        let shell = Self::new_empty_from_previous(self);
        let mut children: Vec<Individual> = Vec::new();
        let mut t: usize = 0;
        while t < self.population_size
            invariant
                dataset.wf(),
                self.wf(dataset),
                1 <= neighbors_distance_lookup < dataset.size,
                1 <= best_out_of,
                t <= self.population_size,
                children@.len() == t,
                forall|k: int|
                    0 <= k < children@.len() ==> (#[trigger] children@[k]).wf(dataset),
            decreases self.population_size - t,
        {
            let child: Individual;
            if self.id >= crossover_generation_limit {
                let parent = match self.select_parent(rng) {
                    Ok(p) => p,
                    Err(e) => return Err(e),
                };
                child = parent.mutate(rng, dataset, neighbors_distance_lookup, best_out_of);
            } else {
                let parent1 = match self.select_parent(rng) {
                    Ok(p) => p,
                    Err(e) => return Err(e),
                };
                let parent2 = match self.select_parent(rng) {
                    Ok(p) => p,
                    Err(e) => return Err(e),
                };
                let crossed = Individual::crossover(parent1, parent2, dataset);
                child = crossed.mutate(rng, dataset, neighbors_distance_lookup, best_out_of);
            }
            children.push(child);
            t = t + 1;
        }
        let ghost unsorted = children@;
        let sorted = sort_population(children);
        proof {
            lemma_multiset_membership(unsorted, sorted@);
            assert forall|k: int| 0 <= k < sorted@.len() implies (#[trigger] sorted@[k]).wf(
                dataset,
            ) && sorted@[k].length <= 0x10000000000000 by {
                let j = choose|j: int| 0 <= j < unsorted.len() && unsorted[j] == sorted@[k];
                lemma_tour_length_bound(dataset, &sorted@[k]);
            };
        }
        let fitnesses = compute_fitnesses(&sorted, self.population_size);
        Ok(
            Generation {
                id: shell.id,
                number_of_generations: shell.number_of_generations,
                number_of_generations_display_width: shell.number_of_generations_display_width,
                population_size: shell.population_size,
                population: sorted,
                fitnesses,
            },
        )
    }
}

} // verus!
