use clonalg::clonalg::{
    clonal_expansion, combine_and_replace, evaluate, hypermutation_inplace, random_population,
    select_subset, OpenPathCost, Path,
};
use clonalg::matrix::DistanceMatrix;
use clonalg::ClonalgError;

fn small_matrix() -> DistanceMatrix {
    let entries: Vec<u32> = vec![
        0, 1, 9, 9, //
        1, 0, 1, 9, //
        9, 1, 0, 1, //
        9, 9, 1, 0, //
    ];
    DistanceMatrix::new(4, entries).unwrap()
}

fn is_permutation(tour: &Path, no_cities: usize) -> bool {
    if tour.0.len() != no_cities {
        return false;
    }
    let mut seen = vec![false; no_cities];
    for &c in tour.0.iter() {
        if c >= no_cities || seen[c] {
            return false;
        }
        seen[c] = true;
    }
    true
}

#[test]
fn matrix_rejects_non_square() {
    let r = DistanceMatrix::new(2, vec![0, 1, 2]);
    assert!(matches!(r, Err(ClonalgError::MalformedMatrix)));
}

#[test]
fn matrix_accepts_square_and_reads_entries() {
    let m = DistanceMatrix::new(2, vec![0, 7, 5, 0]).unwrap();
    assert_eq!(m.side(), 2);
    assert_eq!(m.get(0, 1), 7);
    assert_eq!(m.get(1, 0), 5);
    assert_eq!(m.get(1, 1), 0);
}

#[test]
fn open_path_cost_exact() {
    let m = small_matrix();
    // 0-1 (1) + 1-2 (1) + 2-3 (1); the loop back to 0 is not added.
    assert_eq!(evaluate(&Path(vec![0, 1, 2, 3]), &m), 3);
    // 1-2 (1) + 2-3 (1) + 3-0 (9).
    assert_eq!(evaluate(&Path(vec![1, 2, 3, 0]), &m), 11);
    // 2-0 (9) + 0-1 (1) + 1-3 (9).
    assert_eq!(evaluate(&Path(vec![2, 0, 1, 3]), &m), 19);
}

#[test]
fn open_path_cost_is_minimal_on_reference_tour() {
    // [0, 1, 2, 3] has cost 3, the minimum over all 24 permutations.
    let m = small_matrix();
    let mut perms: Vec<Vec<usize>> = Vec::new();
    for a in 0..4usize {
        for b in 0..4usize {
            for c in 0..4usize {
                for d in 0..4usize {
                    let t = vec![a, b, c, d];
                    let mut s = t.clone();
                    s.sort();
                    if s == vec![0, 1, 2, 3] {
                        perms.push(t);
                    }
                }
            }
        }
    }
    assert_eq!(perms.len(), 24);
    for t in perms {
        assert!(evaluate(&Path(t), &m) >= 3);
    }
}

#[test]
fn evaluate_is_deterministic() {
    let m = small_matrix();
    let t = Path(vec![3, 1, 0, 2]);
    let first = evaluate(&t, &m);
    let second = evaluate(&t, &m);
    assert_eq!(first, second);
}

#[test]
fn mutate_returns_distinct_indices_in_bounds() {
    let m = 5usize;
    for _ in 0..50 {
        let mut t = Path(vec![0, 1, 2, 3, 4]);
        let (i, j) = t.mutate().unwrap();
        assert_ne!(i, j);
        assert!(i < m);
        assert!(j < m);
        assert!(is_permutation(&t, m));
    }
}

#[test]
fn mutate_length_two_swaps_the_pair() {
    let mut t = Path(vec![0, 1]);
    let (i, j) = t.mutate().unwrap();
    assert_ne!(i, j);
    assert_eq!(t.0, vec![1, 0]);
}

#[test]
fn mutate_degenerate_tours_fail() {
    let mut empty = Path(vec![]);
    assert!(matches!(empty.mutate(), Err(ClonalgError::DegenerateMutation)));
    assert_eq!(empty.0, Vec::<usize>::new());

    let mut single = Path(vec![0]);
    assert!(matches!(single.mutate(), Err(ClonalgError::DegenerateMutation)));
    assert_eq!(single.0, vec![0]);
}

#[test]
fn random_population_yields_permutations() {
    let pop = random_population(5, 6);
    assert_eq!(pop.len(), 5);
    for t in pop.iter() {
        assert!(is_permutation(t, 6));
    }
}

#[test]
fn random_population_of_zero_size_is_empty() {
    assert_eq!(random_population(0, 6).len(), 0);
}

#[test]
fn select_subset_returns_lowest_fitness() {
    let m = small_matrix();
    let pop = vec![
        Path(vec![2, 0, 1, 3]), // cost 19
        Path(vec![0, 1, 2, 3]), // cost 3
        Path(vec![1, 2, 3, 0]), // cost 11
    ];
    let sel = select_subset(2, &pop, &OpenPathCost, &m).unwrap();
    assert_eq!(sel.len(), 2);
    assert_eq!(evaluate(&sel[0], &m), 3);
    assert_eq!(evaluate(&sel[1], &m), 11);
    // The population itself is untouched.
    assert_eq!(pop[0].0, vec![2, 0, 1, 3]);
}

#[test]
fn select_subset_full_population_is_sorted() {
    let m = small_matrix();
    let pop = vec![
        Path(vec![2, 0, 1, 3]), // cost 19
        Path(vec![0, 1, 2, 3]), // cost 3
        Path(vec![1, 2, 3, 0]), // cost 11
    ];
    let sel = select_subset(3, &pop, &OpenPathCost, &m).unwrap();
    let costs: Vec<u64> = sel.iter().map(|t| evaluate(t, &m)).collect();
    assert_eq!(costs, vec![3, 11, 19]);
}

#[test]
fn select_subset_oversized_request_fails() {
    let m = small_matrix();
    let pop = vec![Path(vec![0, 1, 2, 3])];
    let r = select_subset(2, &pop, &OpenPathCost, &m);
    assert!(matches!(r, Err(ClonalgError::InvalidSelectionSize)));
    let r = select_subset(1, &Vec::new(), &OpenPathCost, &m);
    assert!(matches!(r, Err(ClonalgError::InvalidSelectionSize)));
}

#[test]
fn select_subset_of_zero_is_empty() {
    let m = small_matrix();
    let pop = vec![Path(vec![0, 1, 2, 3])];
    assert_eq!(select_subset(0, &pop, &OpenPathCost, &m).unwrap().len(), 0);
}

#[test]
fn clonal_expansion_triangular_size_and_rank_order() {
    let m = small_matrix();
    let parents = vec![
        Path(vec![2, 0, 1, 3]), // cost 19, worst
        Path(vec![0, 1, 2, 3]), // cost 3, best
        Path(vec![1, 2, 3, 0]), // cost 11
    ];
    let clones = clonal_expansion(&parents, &OpenPathCost, &m);
    // 3 parents yield 3 + 2 + 1 = 6 clones.
    assert_eq!(clones.len(), 6);
    // The best parent contributes the first 3 clones.
    for k in 0..3 {
        assert_eq!(clones[k].0, vec![0, 1, 2, 3]);
    }
    // Then the middle parent twice, and the worst exactly once, last.
    assert_eq!(clones[3].0, vec![1, 2, 3, 0]);
    assert_eq!(clones[4].0, vec![1, 2, 3, 0]);
    assert_eq!(clones[5].0, vec![2, 0, 1, 3]);
}

#[test]
fn clonal_expansion_of_no_parents_is_empty() {
    let m = small_matrix();
    let clones = clonal_expansion(&Vec::new(), &OpenPathCost, &m);
    assert_eq!(clones.len(), 0);
}

#[test]
fn hypermutation_keeps_permutations_and_length() {
    let m = small_matrix();
    let parents = vec![
        Path(vec![0, 1, 2, 3]),
        Path(vec![1, 2, 3, 0]),
        Path(vec![2, 0, 1, 3]),
    ];
    let mut clones = clonal_expansion(&parents, &OpenPathCost, &m);
    hypermutation_inplace(parents.len(), &mut clones, &OpenPathCost, &m);
    assert_eq!(clones.len(), 6);
    for t in clones.iter() {
        assert!(is_permutation(t, 4));
    }
}

#[test]
fn hypermutation_tier_one_flips_a_two_city_clone() {
    // A tier-1 clone receives exactly one pairwise swap; on a two-city
    // tour that swap is observable: the tour must flip.
    let m = DistanceMatrix::new(2, vec![0, 5, 7, 0]).unwrap();
    let mut clones = vec![Path(vec![0, 1])];
    hypermutation_inplace(1, &mut clones, &OpenPathCost, &m);
    assert_eq!(clones[0].0, vec![1, 0]);
}

#[test]
fn hypermutation_follows_the_tier_schedule() {
    // For 2 parents the schedule is tiers 1, 1, 2: on two-city tours the
    // two tier-1 clones flip (one swap each) and the tier-2 clone is
    // restored (two swaps cancel).
    let m = DistanceMatrix::new(2, vec![0, 5, 7, 0]).unwrap();
    let mut clones = vec![Path(vec![0, 1]), Path(vec![0, 1]), Path(vec![0, 1])];
    hypermutation_inplace(2, &mut clones, &OpenPathCost, &m);
    assert_eq!(clones[0].0, vec![1, 0]);
    assert_eq!(clones[1].0, vec![1, 0]);
    assert_eq!(clones[2].0, vec![0, 1]);
}

#[test]
fn replacement_never_worsens_the_population() {
    let m = small_matrix();
    let mut pop = vec![
        Path(vec![2, 0, 1, 3]), // cost 19
        Path(vec![0, 1, 2, 3]), // cost 3
    ];
    let before: u64 = pop.iter().map(|t| evaluate(t, &m)).sum();
    let selected = vec![Path(vec![1, 2, 3, 0])]; // cost 11
    let random = vec![Path(vec![0, 1, 3, 2])]; // cost 11
    combine_and_replace(&mut pop, selected, random, &OpenPathCost, &m);
    assert_eq!(pop.len(), 2);
    for t in pop.iter() {
        assert!(is_permutation(t, 4));
    }
    let after: u64 = pop.iter().map(|t| evaluate(t, &m)).sum();
    assert!(after <= before);
    // The worst member (19) was displaced by a fitter candidate (11), and
    // the best member (3) survived.
    let mut costs: Vec<u64> = pop.iter().map(|t| evaluate(t, &m)).collect();
    costs.sort();
    assert_eq!(costs, vec![3, 11]);
}

#[test]
fn one_generation_retains_an_optimal_tour() {
    // End-to-end: a population seeded with the optimal tour (cost 3) keeps
    // a tour of cost at most 3 through a full generation.
    let m = small_matrix();
    let mut population = vec![
        Path(vec![0, 1, 2, 3]), // cost 3, the optimum
        Path(vec![2, 0, 1, 3]), // cost 19
        Path(vec![1, 2, 0, 3]), // cost 19
    ];
    let parents_size = 2;
    let selected_size = 2;
    let random_size = 1;

    let parents = select_subset(parents_size, &population, &OpenPathCost, &m).unwrap();
    let mut clones = clonal_expansion(&parents, &OpenPathCost, &m);
    hypermutation_inplace(parents.len(), &mut clones, &OpenPathCost, &m);
    let selected = select_subset(selected_size, &clones, &OpenPathCost, &m).unwrap();
    let random = random_population(random_size, 4);
    combine_and_replace(&mut population, selected, random, &OpenPathCost, &m);

    assert_eq!(population.len(), 3);
    let best = population.iter().map(|t| evaluate(t, &m)).min().unwrap();
    assert!(best <= 3);
}
