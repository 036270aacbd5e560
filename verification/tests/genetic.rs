use tetris::genetic::{
    all_fitnesses, basic_generation_iter, best, crossover_mask, evolve, five_number_summary, from_mask,
    random_crossover_mask, rank, survivor_count, Individual, Summary,
};

/// An individual that records where it came from.
#[derive(Clone, Debug, PartialEq)]
struct Tagged(String);

impl Individual for Tagged {
    fn fitness(&self) -> i64 {
        self.0.len() as i64
    }

    fn crossover(first: &Tagged, second: &Tagged) -> (Tagged, Tagged) {
        (Tagged(format!("({}+{})", first.0, second.0)), Tagged(format!("({}-{})", first.0, second.0)))
    }

    fn mutate(self) -> Tagged {
        Tagged(format!("{}'", self.0))
    }
}

fn tagged(entries: &[(i64, &str)]) -> Vec<(i64, Tagged)> {
    entries.iter().map(|(f, name)| (*f, Tagged(name.to_string()))).collect()
}

fn names(population: &[Tagged]) -> Vec<&str> {
    population.iter().map(|t| t.0.as_str()).collect()
}

fn numbered(n: usize) -> Vec<(i64, Tagged)> {
    (0..n).map(|i| ((i * 7 % 11) as i64, Tagged(format!("g{}", i)))).collect()
}

#[test]
fn survivors_are_the_rounded_square_root() {
    assert_eq!(survivor_count(0), 0);
    assert_eq!(survivor_count(1), 1);
    assert_eq!(survivor_count(2), 1);
    assert_eq!(survivor_count(3), 2);
    assert_eq!(survivor_count(4), 2);
    assert_eq!(survivor_count(6), 2);
    assert_eq!(survivor_count(7), 3);
    assert_eq!(survivor_count(12), 3);
    assert_eq!(survivor_count(13), 4);
    assert_eq!(survivor_count(25), 5);
    assert_eq!(survivor_count(90), 9);
    assert_eq!(survivor_count(91), 10);
    assert_eq!(survivor_count(100), 10);
    assert_eq!(survivor_count(110), 10);
    assert_eq!(survivor_count(111), 11);
    assert_eq!(survivor_count(1_000_000), 1000);
}

#[test]
fn survivors_agree_with_the_square_root_in_floating_point() {
    for n in 0..5000usize {
        let m = (n as f64).sqrt().round() as usize;
        assert_eq!(survivor_count(n), m);
    }
}

#[test]
fn survivors_of_the_largest_population() {
    let m = survivor_count(usize::MAX) as u128;
    let n = usize::MAX as u128;
    assert!(m * m - m < n);
    assert!(n <= m * m + m);
}

#[test]
fn ranking_goes_from_the_fittest_down() {
    let ranked = rank(tagged(&[(3, "a"), (7, "b"), (5, "c"), (7, "d"), (-2, "e")]));
    let order: Vec<(i64, &str)> = ranked.iter().map(|(f, t)| (*f, t.0.as_str())).collect();
    assert_eq!(order, vec![(7, "b"), (7, "d"), (5, "c"), (3, "a"), (-2, "e")]);
}

#[test]
fn ranking_keeps_every_individual() {
    let ranked = rank(numbered(40));
    assert_eq!(ranked.len(), 40);
    for i in 0..40 {
        let name = format!("g{}", i);
        assert_eq!(ranked.iter().filter(|(_, t)| t.0 == name).count(), 1);
    }
    for pair in ranked.windows(2) {
        assert!(pair[0].0 >= pair[1].0);
    }
    assert!(rank(Vec::<(i64, Tagged)>::new()).is_empty());
}

#[test]
fn generation_crosses_every_pair_and_mutates_every_survivor() {
    // Nine individuals, three survivors: c, a and f.
    let scored = tagged(&[
        (8, "a"),
        (1, "b"),
        (9, "c"),
        (0, "d"),
        (2, "e"),
        (5, "f"),
        (3, "g"),
        (4, "h"),
        (-1, "i"),
    ]);
    let next = basic_generation_iter(scored);
    assert_eq!(
        names(&next),
        vec!["(a+c)", "(a-c)", "(f+c)", "(f-c)", "(f+a)", "(f-a)", "c'", "a'", "f'"]
    );
}

#[test]
fn generation_of_four_breeds_four() {
    let next = basic_generation_iter(tagged(&[(1, "a"), (9, "b"), (5, "c"), (7, "d")]));
    assert_eq!(names(&next), vec!["(d+b)", "(d-b)", "b'", "d'"]);
}

#[test]
fn generation_size_is_the_square_of_the_survivors() {
    assert_eq!(basic_generation_iter(numbered(25)).len(), 25);
    assert_eq!(basic_generation_iter(numbered(100)).len(), 100);
    assert_eq!(basic_generation_iter(numbered(10)).len(), 9);
    assert_eq!(basic_generation_iter(numbered(30)).len(), 25);
    assert_eq!(basic_generation_iter(numbered(31)).len(), 36);
    assert_eq!(basic_generation_iter(numbered(2)).len(), 1);
    assert_eq!(basic_generation_iter(numbered(1)).len(), 1);
    assert_eq!(basic_generation_iter(numbered(0)).len(), 0);
}

#[test]
fn generation_of_one_mutates_it() {
    let next = basic_generation_iter(tagged(&[(4, "only")]));
    assert_eq!(names(&next), vec!["only'"]);
}

fn score_all(population: Vec<Tagged>) -> Vec<(i64, Tagged)> {
    all_fitnesses(population)
}

#[test]
fn fitness_stays_with_its_individual() {
    let population: Vec<Tagged> =
        ["ccc", "a", "", "bb", "a"].iter().map(|name| Tagged(name.to_string())).collect();
    let scored = all_fitnesses(population);
    let pairs: Vec<(i64, &str)> = scored.iter().map(|(f, t)| (*f, t.0.as_str())).collect();
    assert_eq!(pairs, vec![(3, "ccc"), (1, "a"), (0, ""), (2, "bb"), (1, "a")]);
    assert!(all_fitnesses(Vec::<Tagged>::new()).is_empty());
}

#[test]
fn evolving_threads_the_population_through_the_generations() {
    let start: Vec<Tagged> = (0..25).map(|i| Tagged("x".repeat(i % 5 + 1))).collect();
    let last = evolve(start.clone(), |p| basic_generation_iter(score_all(p)), 3);
    assert_eq!(last.len(), 25);

    let same = evolve(start.clone(), |p| basic_generation_iter(score_all(p)), 0);
    assert_eq!(same, start);

    let mut expected = start.clone();
    for _ in 0..2 {
        expected = basic_generation_iter(score_all(expected));
    }
    let two = evolve(start, |p| basic_generation_iter(score_all(p)), 2);
    assert_eq!(two, expected);
}

#[test]
fn evolving_counts_the_generations() {
    let grown = evolve(vec![0u32], |mut p: Vec<u32>| {
        p.push(p.len() as u32);
        p
    }, 4);
    assert_eq!(grown, vec![0, 1, 2, 3, 4]);
}

#[test]
fn best_is_the_first_of_the_fittest() {
    let top = best(tagged(&[(3, "a"), (9, "b"), (5, "c"), (9, "d")]));
    assert_eq!(top, (9, Tagged("b".to_string())));
    let top = best(tagged(&[(-3, "a")]));
    assert_eq!(top, (-3, Tagged("a".to_string())));
    let top = best(tagged(&[(i64::MIN, "a"), (i64::MAX, "b"), (0, "c")]));
    assert_eq!(top.1, Tagged("b".to_string()));
}

#[test]
fn crossover_mask_is_never_all_from_one_parent() {
    for genes in 2..=63u32 {
        let all_ones = (1u64 << genes) - 1;
        for r in [0, 1, 2, 5, 6, 7, 13, 14, 1000, u64::MAX - 1, u64::MAX].iter() {
            let mask = crossover_mask(*r, genes);
            assert!(mask > 0);
            assert!(mask < all_ones);
        }
    }
}

#[test]
fn crossover_mask_values() {
    assert_eq!(crossover_mask(0, 3), 1);
    assert_eq!(crossover_mask(4, 3), 5);
    assert_eq!(crossover_mask(5, 3), 6);
    assert_eq!(crossover_mask(6, 3), 1);
    assert_eq!(crossover_mask(13, 4), 14);
    assert_eq!(crossover_mask(14, 4), 1);
    assert_eq!(crossover_mask(0, 2), 1);
    assert_eq!(crossover_mask(1, 2), 2);
    assert_eq!(crossover_mask(u64::MAX, 63), 4);
    // Every mixing mask for three genes comes out.
    let mut seen = [false; 8];
    for r in 0..6 {
        seen[crossover_mask(r, 3) as usize] = true;
    }
    assert_eq!(seen, [false, true, true, true, true, true, true, false]);
}

#[test]
fn from_mask_takes_each_gene_by_its_digit() {
    let first = vec![1, 2, 3];
    let second = vec![10, 20, 30];
    assert_eq!(from_mask(&first, &second, 0b101), vec![1, 20, 3]);
    assert_eq!(from_mask(&second, &first, 0b101), vec![10, 2, 30]);
    assert_eq!(from_mask(&first, &second, 0b000), second);
    assert_eq!(from_mask(&first, &second, 0b111), first);
    assert_eq!(from_mask(&first, &second, 0b010), vec![10, 2, 30]);
    // Digits beyond the genes do not matter.
    assert_eq!(from_mask(&first, &second, 0b1000 | 0b001), vec![1, 20, 30]);
    assert_eq!(from_mask(&Vec::<u8>::new(), &Vec::new(), 5), Vec::<u8>::new());
    // More genes than a mask has digits: the rest come from the second parent.
    let long1 = vec![1u8; 70];
    let long2 = vec![2u8; 70];
    let child = from_mask(&long1, &long2, u64::MAX);
    assert_eq!(child[..64], long1[..64]);
    assert_eq!(child[64..], long2[64..]);
}

#[test]
fn children_by_a_mixing_mask_differ_from_both_parents() {
    for genes in [2usize, 3, 4, 9].iter() {
        let first: Vec<i32> = (0..*genes as i32).collect();
        let second: Vec<i32> = (0..*genes as i32).map(|g| g + 100).collect();
        for r in 0..200u64 {
            let mask = crossover_mask(r, *genes as u32);
            let c1 = from_mask(&first, &second, mask);
            let c2 = from_mask(&second, &first, mask);
            assert_ne!(c1, first);
            assert_ne!(c1, second);
            assert_ne!(c2, first);
            assert_ne!(c2, second);
            // Between them the children have every gene of both parents.
            for g in 0..*genes {
                assert!(
                    (c1[g] == first[g] && c2[g] == second[g]) || (c1[g] == second[g] && c2[g] == first[g])
                );
            }
        }
    }
}

#[test]
fn summary_of_a_ranking() {
    let ranked: Vec<(i64, ())> = [9, 8, 7, 6, 5, 4, 3, 2].iter().map(|f| (*f, ())).collect();
    assert_eq!(
        five_number_summary(&ranked),
        Some(Summary { max: 9, upper_quartile: 7, median: 5, lower_quartile: 3, min: 2 })
    );
    let ranked: Vec<(i64, ())> = [50, 40, 30, 20, 10].iter().map(|f| (*f, ())).collect();
    assert_eq!(
        five_number_summary(&ranked),
        Some(Summary { max: 50, upper_quartile: 40, median: 30, lower_quartile: 20, min: 10 })
    );
    let ranked = vec![(4, ())];
    assert_eq!(
        five_number_summary(&ranked),
        Some(Summary { max: 4, upper_quartile: 4, median: 4, lower_quartile: 4, min: 4 })
    );
    assert_eq!(five_number_summary(&Vec::<(i64, ())>::new()), None);
}

#[test]
fn random_crossover_masks_mix_and_vary() {
    let mut seen = Vec::new();
    for _ in 0..300 {
        let mask = random_crossover_mask(4);
        assert!(mask >= 1 && mask <= 14);
        if !seen.contains(&mask) {
            seen.push(mask);
        }
    }
    assert!(seen.len() >= 2);
    for _ in 0..50 {
        let mask = random_crossover_mask(2);
        assert!(mask == 1 || mask == 2);
    }
}
