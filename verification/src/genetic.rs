//! The generational loop: individuals are ranked by fitness, the best
//! survive, every pair of survivors is crossed, and every survivor is
//! mutated.

use vstd::prelude::*;
use crate::chance::random_u64;
use vstd::arithmetic::power2::{
    lemma2_to64, lemma2_to64_rest, lemma_pow2_strictly_increases, lemma_pow2_unfold, pow2,
};
use vstd::multiset::{lemma_multiset_empty_len, Multiset};
use vstd::seq_lib::{to_multiset_build, to_multiset_len, to_multiset_remove};

verus! {

/// Genetically evolvable individuals.
///
/// `Individual` types are bound by `Send` and `'static` so that they may
/// safely be used in threads.
pub trait Individual: Send + 'static + Sized {
    /// Evaluate the fitness of this individual - give it a score, where
    /// higher = more likely to survive and create offspring.
    fn fitness(&self) -> i64;

    /// Cross two parents to create two children. Order of the parents should
    /// not be important.
    fn crossover(first: &Self, second: &Self) -> (Self, Self);

    /// Slightly mutate the genes of this individual.
    fn mutate(self) -> Self;
}

/// Whether `m` is the square root of `n`, rounded to the nearest whole
/// number: `n` lies within `m` of the square of `m`, above it or, by less,
/// below it.
pub open spec fn is_rounded_root(n: int, m: int) -> bool {
    &&& 0 <= m
    &&& n <= m * m + m
    &&& (m * m - m < n || (m == 0 && n == 0))
}

/// Whether the fitnesses never rise along the sequence.
pub open spec fn is_descending<T>(ranked: Seq<(i64, T)>) -> bool {
    forall|i: int, j: int| 0 <= i < j < ranked.len() ==> ranked[i].0 >= ranked[j].0
}

/// Whether `ranked` holds the individuals of `scored`, each as often as
/// there, from the fittest down.
pub open spec fn is_ranking<T>(scored: Seq<(i64, T)>, ranked: Seq<(i64, T)>) -> bool {
    &&& ranked.to_multiset() == scored.to_multiset()
    &&& is_descending(ranked)
}

/// Whether the individual at index `i` has the highest fitness, and is the
/// first that has it.
pub open spec fn is_first_best<T>(scored: Seq<(i64, T)>, i: int) -> bool {
    &&& 0 <= i < scored.len()
    &&& forall|j: int| 0 <= j < scored.len() ==> scored[j].0 <= scored[i].0
    &&& forall|j: int| 0 <= j < i ==> scored[j].0 < scored[i].0
}

/// Where the children of the survivors `i` and `j` stand in the next
/// population: pairs come in the order of `i`, then of `j`, two children each.
pub open spec fn pair_slot(i: int, j: int) -> int {
    i * (i - 1) + 2 * j
}

/// Whether `parents` are the survivors of `scored`, and `next` the
/// population that they breed: the survivors are the fittest of a ranking,
/// as many as the rounded square root of the population size; for every two
/// of them, the later crossed with the earlier, `next` holds both children;
/// and behind the children it holds every survivor, mutated.
pub open spec fn breeds<T: Individual>(
    scored: Seq<(i64, T)>,
    parents: Seq<T>,
    next: Seq<T>,
) -> bool {
    let m = parents.len() as int;
    &&& is_rounded_root(scored.len() as int, m)
    &&& exists|ranked: Seq<(i64, T)>|
        #![trigger is_ranking(scored, ranked)]
        is_ranking(scored, ranked) && forall|k: int| 0 <= k < m ==> parents[k] == ranked[k].1
    &&& next.len() == m * m
    &&& forall|i: int, j: int|
        0 <= j < i < m ==> call_ensures(
            T::crossover,
            (&parents[i], &parents[j]),
            (next[#[trigger] pair_slot(i, j)], next[pair_slot(i, j) + 1]),
        )
    &&& forall|k: int|
        0 <= k < m ==> call_ensures(T::mutate, (parents[k],), #[trigger] next[m * (m - 1) + k])
}

/// The children of a pair stand behind those of every pair before it.
proof fn lemma_pair_slot_order(a: int, b: int, i: int, j: int)
    requires
        0 <= b < a,
        0 <= j <= i,
        a < i || (a == i && b < j),
    ensures
        0 <= pair_slot(a, b),
        pair_slot(a, b) + 1 < pair_slot(i, j),
{
    assert(a * (a - 1) >= 0) by (nonlinear_arith)
        requires
            a >= 1,
    ;
    if a < i {
        assert((a + 1) * a <= i * (i - 1)) by (nonlinear_arith)
            requires
                0 <= a,
                a + 1 <= i,
        ;
        assert((a + 1) * a == a * (a - 1) + 2 * a) by (nonlinear_arith);
    }
}

/// A sequence without entries holds nothing, however often.
proof fn lemma_nothing_ranked<T>(s: Seq<T>)
    requires
        s.len() == 0,
    ensures
        s.to_multiset() =~= Multiset::empty(),
{
    to_multiset_len(s);
    lemma_multiset_empty_len(s.to_multiset());
}

/// The number of survivors for a population of `n`: the square root of
/// `n`, rounded to the nearest whole number.
pub fn survivor_count(n: usize) -> (m: usize)
    ensures
        is_rounded_root(n as int, m as int),
        m <= n,
{
    // The least `m` with `n <= m * m + m`, found by bisection.
    let mut lo: u128 = 0;
    let mut hi: u128 = 0x1_0000_0000;
    assert(n <= hi * hi + hi) by (nonlinear_arith)
        requires
            hi == 0x1_0000_0000,
            n <= 0xffff_ffff_ffff_ffff,
    ;
    while lo < hi
        invariant
            lo <= hi <= 0x1_0000_0000,
            n <= hi * hi + hi,
            lo == 0 || (lo - 1) * (lo - 1) + (lo - 1) < n,
        decreases hi - lo,
    {
        let mid = lo + (hi - lo) / 2;
        assert(mid * mid <= 0x1_0000_0000 * 0x1_0000_0000) by (nonlinear_arith)
            requires
                0 <= mid <= 0x1_0000_0000,
        ;
        if n as u128 <= mid * mid + mid {
            hi = mid;
        } else {
            lo = mid + 1;
        }
    }
    assert(lo == 0 || lo * lo - lo < n) by (nonlinear_arith)
        requires
            lo == 0 || (lo - 1) * (lo - 1) + (lo - 1) < n,
    ;
    assert(lo <= n) by (nonlinear_arith)
        requires
            lo == 0 || lo * lo - lo < n,
            0 <= lo,
            0 <= n,
    ;
    let m = lo as usize;
    assert(m == lo && lo == hi);
    assert(n <= m * m + m);
    assert(m * m - m < n || (m == 0 && n == 0)) by (nonlinear_arith)
        requires
            m == lo,
            lo == 0 || lo * lo - lo < n,
            n <= m * m + m,
            0 <= n,
    ;
    m
}

/// Rank a population by fitness, from the fittest down.
pub fn rank<T>(scored: Vec<(i64, T)>) -> (ranked: Vec<(i64, T)>)
    ensures
        is_ranking(scored@, ranked@),
        ranked.len() == scored.len(),
{
    let ghost all = scored@;
    let mut rest = scored;
    let mut ranked: Vec<(i64, T)> = Vec::new();
    assert(ranked@.to_multiset().add(rest@.to_multiset()) =~= all.to_multiset()) by {
        lemma_nothing_ranked(ranked@);
    }
    while rest.len() > 0
        invariant
            ranked@.to_multiset().add(rest@.to_multiset()) == all.to_multiset(),
            ranked.len() + rest.len() == all.len(),
            is_descending(ranked@),
            forall|i: int, j: int|
                0 <= i < ranked.len() && 0 <= j < rest.len() ==> ranked[i].0 >= rest[j].0,
        decreases rest.len(),
    {
        let mut at: usize = 0;
        let mut k: usize = 1;
        while k < rest.len()
            invariant
                0 <= at < k <= rest.len(),
                forall|j: int| 0 <= j < k ==> rest[j].0 <= rest[at as int].0,
            decreases rest.len() - k,
        {
            if rest[k].0 > rest[at].0 {
                at = k;
            }
            k += 1;
        }
        let ghost before = rest@;
        let ghost above = ranked@;
        let top = rest.remove(at);
        ranked.push(top);
        proof {
            to_multiset_remove(before, at as int);
            to_multiset_build(above, top);
            assert(before.to_multiset().count(top) > 0) by {
                assert(before.contains(top));
                before.to_multiset_ensures();
            }
            assert(ranked@.to_multiset().add(rest@.to_multiset()) =~= above.to_multiset().add(
                before.to_multiset(),
            ));
            assert forall|i: int, j: int| 0 <= i < j < ranked.len() implies ranked[i].0
                >= ranked[j].0 by {
                if j < above.len() {
                    assert(ranked[i] == above[i] && ranked[j] == above[j]);
                } else {
                    assert(ranked[i] == above[i]);
                    assert(ranked[j] == before[at as int]);
                }
            }
            assert forall|i: int, j: int|
                0 <= i < ranked.len() && 0 <= j < rest.len() implies ranked[i].0 >= rest[j].0 by {
                if j < at {
                    assert(rest[j] == before[j]);
                } else {
                    assert(rest[j] == before[j + 1]);
                }
                if i < above.len() {
                    assert(ranked[i] == above[i]);
                }
            }
        }
    }
    proof {
        lemma_nothing_ranked(rest@);
        assert(ranked@.to_multiset() =~= all.to_multiset());
    }
    ranked
}

/// Whether `scored` holds the individuals of the population in their
/// order, each with a fitness that it gave for itself.
pub open spec fn is_scoring<T: Individual>(population: Seq<T>, scored: Seq<(i64, T)>) -> bool {
    &&& scored.len() == population.len()
    &&& forall|i: int|
        0 <= i < population.len() ==> (#[trigger] scored[i]).1 == population[i] && call_ensures(
            T::fitness,
            (&population[i],),
            scored[i].0,
        )
}

/// Transform a population (vector of `Individuals`) into a vector that
/// pairs individuals with their fitness, one after the other. Each fitness
/// stays with the individual that it is of.
pub fn all_fitnesses<T: Individual>(population: Vec<T>) -> (scored: Vec<(i64, T)>)
    ensures
        is_scoring(population@, scored@),
{
    let ghost all = population@;
    let mut population = population;
    let mut waiting: Vec<T> = Vec::new();
    while population.len() > 0
        invariant
            population.len() + waiting.len() == all.len(),
            forall|i: int| 0 <= i < population.len() ==> population[i] == all[i],
            forall|i: int| 0 <= i < waiting.len() ==> waiting[i] == all[all.len() - 1 - i],
        decreases population.len(),
    {
        let ghost earlier = waiting@;
        let last = population.pop().unwrap();
        waiting.push(last);
        assert forall|i: int| 0 <= i < waiting.len() implies waiting[i] == all[all.len() - 1
            - i] by {
            if i < earlier.len() {
                assert(waiting[i] == earlier[i]);
            }
        }
    }
    let mut scored: Vec<(i64, T)> = Vec::new();
    while waiting.len() > 0
        invariant
            scored.len() + waiting.len() == all.len(),
            forall|i: int| 0 <= i < waiting.len() ==> waiting[i] == all[all.len() - 1 - i],
            forall|i: int|
                0 <= i < scored.len() ==> (#[trigger] scored[i]).1 == all[i] && call_ensures(
                    T::fitness,
                    (&all[i],),
                    scored[i].0,
                ),
        decreases waiting.len(),
    {
        let ghost earlier = scored@;
        let individual = waiting.pop().unwrap();
        let fitness = individual.fitness();
        scored.push((fitness, individual));
        assert forall|i: int| 0 <= i < scored.len() implies (#[trigger] scored[i]).1 == all[i]
            && call_ensures(T::fitness, (&all[i],), scored[i].0) by {
            if i < earlier.len() {
                assert(scored[i] == earlier[i]);
            }
        }
    }
    scored
}

/// A simple default evolution step, on a population whose fitness has been
/// evaluated.
///
/// After taking the top individuals from the population, forms each possible
/// pair of surviving individuals to make children and then mutates the
/// parents and adds them back to the population. If the population has
/// `n` individuals, then the number of survivors chosen is sqrt(`n`), rounded.
pub fn basic_generation_iter<T: Individual>(scored: Vec<(i64, T)>) -> (next: Vec<T>)
    ensures
        exists|parents: Seq<T>| #[trigger] breeds(scored@, parents, next@),
{
    let m = survivor_count(scored.len());

    // Sort the population by fitness and retain the top `m`
    let mut ranked = rank(scored);
    let ghost ranking = ranked@;
    ranked.truncate(m);
    let ghost parents: Seq<T> = Seq::new(m as nat, |k: int| ranking[k].1);
    assert forall|k: int| 0 <= k < m implies ranked[k].1 == parents[k] by {}

    let mut next: Vec<T> = Vec::new();
    let mut i: usize = 0;
    while i < m
        invariant
            i <= m,
            ranked.len() == m,
            parents.len() == m,
            forall|k: int| 0 <= k < m ==> (#[trigger] ranked[k]).1 == parents[k],
            next.len() == pair_slot(i as int, 0),
            forall|a: int, b: int|
                0 <= b < a < i ==> call_ensures(
                    T::crossover,
                    (&parents[a], &parents[b]),
                    (next[#[trigger] pair_slot(a, b)], next[pair_slot(a, b) + 1]),
                ),
        decreases m - i,
    {
        let mut j: usize = 0;
        while j < i
            invariant
                j <= i < m,
                ranked.len() == m,
                parents.len() == m,
                forall|k: int| 0 <= k < m ==> (#[trigger] ranked[k]).1 == parents[k],
                next.len() == pair_slot(i as int, j as int),
                forall|a: int, b: int|
                    0 <= b < a && (a < i || (a == i && b < j)) ==> call_ensures(
                        T::crossover,
                        (&parents[a], &parents[b]),
                        (next[#[trigger] pair_slot(a, b)], next[pair_slot(a, b) + 1]),
                    ),
            decreases i - j,
        {
            let ghost before = next@;
            let (c1, c2) = T::crossover(&ranked[i].1, &ranked[j].1);
            next.push(c1);
            next.push(c2);
            proof {
                assert(ranked[i as int].1 == parents[i as int]);
                assert(ranked[j as int].1 == parents[j as int]);
                assert forall|a: int, b: int|
                    0 <= b < a && (a < i || (a == i && b < j + 1)) implies call_ensures(
                    T::crossover,
                    (&parents[a], &parents[b]),
                    (next[#[trigger] pair_slot(a, b)], next[pair_slot(a, b) + 1]),
                ) by {
                    if a == i && b == j {
                        assert(next[pair_slot(a, b)] == c1);
                        assert(next[pair_slot(a, b) + 1] == c2);
                    } else {
                        lemma_pair_slot_order(a, b, i as int, j as int);
                        assert(next[pair_slot(a, b)] == before[pair_slot(a, b)]);
                        assert(next[pair_slot(a, b) + 1] == before[pair_slot(a, b) + 1]);
                    }
                }
            }
            j += 1;
        }
        assert(pair_slot(i as int, i as int) == pair_slot(i + 1, 0)) by (nonlinear_arith);
        i += 1;
    }

    let ghost children = next@;
    let ghost base = pair_slot(m as int, 0);
    let mut k: usize = 0;
    while ranked.len() > 0
        invariant
            k <= m,
            parents.len() == m,
            base == pair_slot(m as int, 0),
            children.len() == base,
            ranked.len() == m - k,
            forall|t: int| 0 <= t < m - k ==> (#[trigger] ranked[t]).1 == parents[k + t],
            next.len() == base + k,
            forall|s: int| 0 <= s < base ==> next[s] == children[s],
            forall|t: int|
                0 <= t < k ==> call_ensures(T::mutate, (parents[t],), #[trigger] next[base + t]),
        decreases ranked.len(),
    {
        let ghost before = next@;
        let ghost waiting = ranked@;
        let (_, parent) = ranked.remove(0);
        let mutated = parent.mutate();
        next.push(mutated);
        proof {
            assert(waiting[0].1 == parents[k as int]);
            assert forall|t: int| 0 <= t < m - (k + 1) implies (#[trigger] ranked[t]).1
                == parents[k + 1 + t] by {
                assert(ranked[t] == waiting[t + 1]);
            }
            assert forall|t: int| 0 <= t < k + 1 implies call_ensures(
                T::mutate,
                (parents[t],),
                #[trigger] next[base + t],
            ) by {
                if t < k {
                    assert(next[base + t] == before[base + t]);
                }
            }
        }
        k += 1;
    }
    proof {
        let mm = m as int;
        assert(mm * mm == pair_slot(mm, 0) + mm) by (nonlinear_arith);
        assert(is_ranking(scored@, ranking));
        assert forall|a: int, b: int| 0 <= b < a < mm implies call_ensures(
            T::crossover,
            (&parents[a], &parents[b]),
            (next[#[trigger] pair_slot(a, b)], next[pair_slot(a, b) + 1]),
        ) by {
            lemma_pair_slot_order(a, b, mm, 0);
            assert(next[pair_slot(a, b)] == children[pair_slot(a, b)]);
            assert(next[pair_slot(a, b) + 1] == children[pair_slot(a, b) + 1]);
        }
        assert(breeds(scored@, parents, next@));
    }
    next
}

/// Evolve a population for `n_generations` generations with a specified
/// generation iterator function.
pub fn evolve<T, F: Fn(Vec<T>) -> Vec<T>>(
    population: Vec<T>,
    generation_iter: F,
    n_generations: u32,
) -> (last: Vec<T>)
    requires
        forall|p: Vec<T>| call_requires(generation_iter, (p,)),
    ensures
        exists|generations: Seq<Vec<T>>|
            #![trigger generations.len()]
            generations.len() == n_generations + 1 && generations[0] == population
                && generations.last() == last && forall|g: int|
                0 <= g < n_generations ==> call_ensures(
                    generation_iter,
                    (#[trigger] generations[g],),
                    generations[g + 1],
                ),
{
    let ghost first = population;
    let mut population = population;
    let ghost mut generations: Seq<Vec<T>> = seq![population];
    let mut g: u32 = 0;
    while g < n_generations
        invariant
            g <= n_generations,
            forall|p: Vec<T>| call_requires(generation_iter, (p,)),
            generations.len() == g + 1,
            generations[0] == first,
            generations.last() == population,
            forall|t: int|
                0 <= t < g ==> call_ensures(
                    generation_iter,
                    (#[trigger] generations[t],),
                    generations[t + 1],
                ),
        decreases n_generations - g,
    {
        let ghost before = generations;
        let ghost parents = population;
        population = generation_iter(population);
        proof {
            generations = before.push(population);
            assert forall|t: int| 0 <= t < g + 1 implies call_ensures(
                generation_iter,
                (#[trigger] generations[t],),
                generations[t + 1],
            ) by {
                if t < g {
                    assert(generations[t] == before[t]);
                    assert(generations[t + 1] == before[t + 1]);
                } else {
                    assert(generations[t] == parents);
                }
            }
        }
        g += 1;
    }
    population
}

/// Reduce a population whose fitness has been evaluated to its best
/// individual: the first of those with the highest fitness.
pub fn best<T>(scored: Vec<(i64, T)>) -> (top: (i64, T))
    requires
        scored.len() > 0,
    ensures
        exists|i: int| #[trigger] is_first_best(scored@, i) && scored[i] == top,
{
    let mut scored = scored;
    let mut at: usize = 0;
    let mut k: usize = 1;
    while k < scored.len()
        invariant
            0 <= at < k <= scored.len(),
            forall|j: int| 0 <= j < k ==> scored[j].0 <= scored[at as int].0,
            forall|j: int| 0 <= j < at ==> scored[j].0 < scored[at as int].0,
        decreases scored.len() - k,
    {
        if scored[k].0 > scored[at].0 {
            at = k;
        }
        k += 1;
    }
    assert(is_first_best(scored@, at as int));
    scored.remove(at)
}

/// The mask with its `i` lowest digits in base two taken off.
pub open spec fn halved(mask: nat, i: nat) -> nat
    decreases i,
{
    if i == 0 {
        mask
    } else {
        halved(mask / 2, (i - 1) as nat)
    }
}

/// Whether a crossover mask gives gene `i` of a child from the first
/// parent: digit `i` of the mask in base two, counted from the lowest, is a
/// one.
pub open spec fn picks_first(mask: nat, i: nat) -> bool {
    halved(mask, i) % 2 == 1
}

/// The child that a crossover mask makes of two parents: gene `i` comes
/// from the first parent if the mask picks it, else from the second.
pub open spec fn blend<G>(first: Seq<G>, second: Seq<G>, mask: nat) -> Seq<G> {
    Seq::new(
        first.len(),
        |i: int|
            if picks_first(mask, i as nat) {
                first[i]
            } else {
                second[i]
            },
    )
}

/// Whether a crossover mask for `genes` genes takes some gene from each
/// parent: it is neither nothing nor all ones.
pub open spec fn is_mixing(mask: nat, genes: nat) -> bool {
    0 < mask < pow2(genes) - 1
}

/// Taking off one more digit halves what is left.
pub proof fn lemma_halved_step(mask: nat, i: nat)
    ensures
        halved(mask, i + 1) == halved(mask, i) / 2,
    decreases i,
{
    reveal_with_fuel(halved, 2);
    if i > 0 {
        lemma_halved_step(mask / 2, (i - 1) as nat);
    }
}

/// A mask that is not nothing gives some gene from the first parent.
pub proof fn lemma_some_gene_from_first(mask: nat, genes: nat)
    requires
        0 < mask < pow2(genes),
    ensures
        exists|i: nat| i < genes && #[trigger] picks_first(mask, i),
    decreases genes,
{
    if genes == 0 {
        lemma2_to64();
    } else if mask % 2 == 1 {
        assert(picks_first(mask, 0));
    } else {
        lemma_pow2_unfold(genes);
        lemma_some_gene_from_first(mask / 2, (genes - 1) as nat);
        let i = choose|i: nat| i < genes - 1 && #[trigger] picks_first(mask / 2, i);
        assert(picks_first(mask, i + 1));
    }
}

/// A mask that is not all ones gives some gene from the second parent.
pub proof fn lemma_some_gene_from_second(mask: nat, genes: nat)
    requires
        mask < pow2(genes) - 1,
    ensures
        exists|i: nat| i < genes && !#[trigger] picks_first(mask, i),
    decreases genes,
{
    if genes == 0 {
        lemma2_to64();
    } else if mask % 2 == 0 {
        assert(!picks_first(mask, 0));
    } else {
        lemma_pow2_unfold(genes);
        lemma_some_gene_from_second(mask / 2, (genes - 1) as nat);
        let i = choose|i: nat| i < genes - 1 && !#[trigger] picks_first(mask / 2, i);
        assert(!picks_first(mask, i + 1));
    }
}

/// A mixing mask never gives a child all its genes from one parent: some
/// gene comes from the first and some from the second.
pub proof fn lemma_mixing_mask_mixes(mask: nat, genes: nat)
    requires
        is_mixing(mask, genes),
    ensures
        exists|i: nat| i < genes && #[trigger] picks_first(mask, i),
        exists|i: nat| i < genes && !#[trigger] picks_first(mask, i),
{
    lemma_some_gene_from_first(mask, genes);
    lemma_some_gene_from_second(mask, genes);
}

/// A child made by a mixing mask has a gene of each parent. Where the
/// parents have no gene in common, it is neither of them, and nor is the
/// child that the mask makes of the parents the other way round.
pub proof fn lemma_children_mix<G>(first: Seq<G>, second: Seq<G>, mask: nat)
    requires
        first.len() == second.len(),
        is_mixing(mask, first.len()),
    ensures
        exists|i: int| 0 <= i < first.len() && #[trigger] blend(first, second, mask)[i] == first[i],
        exists|i: int| 0 <= i < first.len() && #[trigger] blend(first, second, mask)[i] == second[i],
        (forall|i: int| 0 <= i < first.len() ==> first[i] != second[i]) ==> blend(first, second, mask) != first
            && blend(first, second, mask) != second && blend(second, first, mask) != first && blend(second, first, mask)
            != second,
{
    lemma_mixing_mask_mixes(mask, first.len());
    let a = choose|i: nat| i < first.len() && #[trigger] picks_first(mask, i);
    let b = choose|i: nat| i < first.len() && !#[trigger] picks_first(mask, i);
    assert(blend(first, second, mask)[a as int] == first[a as int]);
    assert(blend(first, second, mask)[b as int] == second[b as int]);
    assert(blend(second, first, mask)[a as int] == second[a as int]);
    assert(blend(second, first, mask)[b as int] == first[b as int]);
}

/// The rounded square root of a number is unique.
pub proof fn lemma_rounded_root_unique(n: int, m1: int, m2: int)
    requires
        is_rounded_root(n, m1),
        is_rounded_root(n, m2),
    ensures
        m1 == m2,
{
    if m1 < m2 {
        assert((m1 + 1) * (m1 + 1) - (m1 + 1) <= m2 * m2 - m2) by (nonlinear_arith)
            requires
                0 <= m1,
                m1 + 1 <= m2,
        ;
        assert((m1 + 1) * (m1 + 1) - (m1 + 1) == m1 * m1 + m1) by (nonlinear_arith);
    } else if m2 < m1 {
        assert((m2 + 1) * (m2 + 1) - (m2 + 1) <= m1 * m1 - m1) by (nonlinear_arith)
            requires
                0 <= m2,
                m2 + 1 <= m1,
        ;
        assert((m2 + 1) * (m2 + 1) - (m2 + 1) == m2 * m2 + m2) by (nonlinear_arith);
    }
}

/// A population of a square number of individuals breeds one of the same
/// size: the rounded square root of `m * m` is `m`.
pub proof fn lemma_square_population_is_stable(m: int)
    requires
        0 <= m,
    ensures
        is_rounded_root(m * m, m),
{
    assert(is_rounded_root(m * m, m)) by (nonlinear_arith)
        requires
            0 <= m,
    ;
}

/// Turn a random number into a crossover mask for `genes` genes that takes
/// some gene from each parent. Every such mask can come out, and about
/// equally often.
pub fn crossover_mask(r: u64, genes: u32) -> (mask: u64)
    requires
        2 <= genes <= 63,
    ensures
        is_mixing(mask as nat, genes as nat),
        mask == 1 + r % ((pow2(genes as nat) - 2) as u64),
{
    let mut all: u64 = 1;
    let mut g: u32 = 0;
    proof {
        lemma2_to64();
        lemma2_to64_rest();
    }
    while g < genes
        invariant
            g <= genes <= 63,
            all == pow2(g as nat),
            pow2(63) == 0x8000_0000_0000_0000,
        decreases genes - g,
    {
        proof {
            lemma_pow2_unfold((g + 1) as nat);
            if g + 1 < 63 {
                lemma_pow2_strictly_increases((g + 1) as nat, 63);
            }
        }
        all = all * 2;
        g += 1;
    }
    proof {
        lemma2_to64();
        if genes > 2 {
            lemma_pow2_strictly_increases(2, genes as nat);
        }
    }
    1 + r % (all - 2)
}

/// Draw a crossover mask for `genes` genes that takes some gene from each
/// parent.
pub fn random_crossover_mask(genes: u32) -> (mask: u64)
    requires
        2 <= genes <= 63,
    ensures
        is_mixing(mask as nat, genes as nat),
{
    crossover_mask(random_u64(), genes)
}

/// Assign genes according to a mask: gene `i` of the child comes from the
/// first parent if digit `i` of the mask is a one, else from the second.
pub fn from_mask<G: Copy>(first: &Vec<G>, second: &Vec<G>, mask: u64) -> (child: Vec<G>)
    requires
        first.len() == second.len(),
    ensures
        child@ == blend(first@, second@, mask as nat),
{
    let mut child: Vec<G> = Vec::new();
    let mut left = mask;
    let mut i: usize = 0;
    while i < first.len()
        invariant
            i <= first.len(),
            first.len() == second.len(),
            child.len() == i,
            left == halved(mask as nat, i as nat),
            forall|k: int|
                0 <= k < i ==> #[trigger] child[k] == if picks_first(mask as nat, k as nat) {
                    first[k]
                } else {
                    second[k]
                },
        decreases first.len() - i,
    {
        let gene = if left % 2 == 1 {
            first[i]
        } else {
            second[i]
        };
        child.push(gene);
        proof {
            lemma_halved_step(mask as nat, i as nat);
        }
        left = left / 2;
        i += 1;
    }
    assert(child@ =~= blend(first@, second@, mask as nat));
    child
}

/// Five numbers that sum up the fitness of a population.
#[derive(Clone, Copy, Debug, PartialEq, Eq, Structural)]
pub struct Summary {
    pub max: i64,
    pub upper_quartile: i64,
    pub median: i64,
    pub lower_quartile: i64,
    pub min: i64,
}

/// Whether the summary is that of the ranking: of `n` fitnesses from the
/// highest down, the first, those a quarter, a half and three quarters of
/// the way down (at `n / 4`, `n / 2` and `3 * n / 4`, rounded down), and
/// the last.
pub open spec fn summarizes<T>(ranked: Seq<(i64, T)>, summary: Summary) -> bool {
    let n = ranked.len() as int;
    &&& summary.max == ranked[0].0
    &&& summary.upper_quartile == ranked[n / 4].0
    &&& summary.median == ranked[n / 2].0
    &&& summary.lower_quartile == ranked[3 * n / 4].0
    &&& summary.min == ranked[n - 1].0
}

/// Sum up the fitness of a ranked population in five numbers: the maximum,
/// the upper quartile, the median, the lower quartile and the minimum.
/// There is no summary of an empty population.
pub fn five_number_summary<T>(ranked: &Vec<(i64, T)>) -> (summary: Option<Summary>)
    ensures
        summary is None <==> ranked.len() == 0,
        summary matches Some(s) ==> summarizes(ranked@, s),
{
    let n = ranked.len();
    if n == 0 {
        return None;
    }
    let quarter = n / 4;
    let half = n / 2;
    let three_quarters = three_quarter_index(n);
    Some(
        Summary {
            max: ranked[0].0,
            upper_quartile: ranked[quarter].0,
            median: ranked[half].0,
            lower_quartile: ranked[three_quarters].0,
            min: ranked[n - 1].0,
        },
    )
}

/// Three quarters of `n`, rounded down.
fn three_quarter_index(n: usize) -> (i: usize)
    requires
        n > 0,
    ensures
        i == 3 * n / 4,
        i < n,
{
    // `n / 4 * 3` and what the remainder adds, so that nothing overflows.
    n / 4 * 3 + (n % 4) * 3 / 4
}

} // verus!
